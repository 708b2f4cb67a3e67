[package]
name = "blud"
version = "0.1.0"
edition = "2021"
publish = false

[dependencies]
fimg = { version = "*", default-features = false }
umath = "*"
