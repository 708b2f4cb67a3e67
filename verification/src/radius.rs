//! The blur radius: a standard deviation held exactly, as a binary fraction.
//!
//! A radius is made from the bits of an IEEE 754 single-precision number.
//! Every finite number of that format is `significand * 2^scale` for two
//! integers, so nothing is rounded on the way in.

use vstd::arithmetic::power2::pow2;
use vstd::prelude::*;

verus! {

/// Why a blur was refused.
#[derive(Clone, Copy, Debug, PartialEq, Eq)]
pub enum BlurError {
    /// The radius is an infinity or not a number.
    NotFinite,
    /// The radius is below zero.
    Negative,
    /// The radius is `2^24` or more.
    TooLarge,
    /// The buffer does not hold `width * height` pixels.
    LengthMismatch,
}

/// The sign of a single-precision bit pattern: 1 for a set sign bit.
pub open spec fn sign_field(bits: u32) -> int {
    bits as int / 0x8000_0000
}

/// The 8 exponent bits of a single-precision bit pattern.
pub open spec fn exponent_field(bits: u32) -> int {
    (bits as int / 0x80_0000) % 0x100
}

/// The 23 fraction bits of a single-precision bit pattern.
pub open spec fn fraction_field(bits: u32) -> int {
    bits as int % 0x80_0000
}

/// The integer significand of a finite bit pattern: the fraction bits, with
/// the implied leading one of a normal number.
pub open spec fn significand(bits: u32) -> int {
    if exponent_field(bits) == 0 {
        fraction_field(bits)
    } else {
        0x80_0000 + fraction_field(bits)
    }
}

/// The power of two that scales the significand of a finite bit pattern:
/// its magnitude is `significand(bits) * 2^scale(bits)`.
pub open spec fn scale(bits: u32) -> int {
    if exponent_field(bits) == 0 {
        -149
    } else {
        exponent_field(bits) - 150
    }
}

/// A standard deviation `num() / den()`, at least 0 and below `2^24`.
#[derive(Clone, Copy, Debug)]
pub struct BlurRadius {
    mantissa: u32,
    shift: u32,
}

impl BlurRadius {
    #[verifier::type_invariant]
    spec fn well_formed(self) -> bool {
        self.mantissa < 0x100_0000 && self.shift <= 149
    }

    /// The numerator of the radius.
    pub closed spec fn num(self) -> int {
        self.mantissa as int
    }

    /// The denominator of the radius, a power of two.
    pub closed spec fn den(self) -> int {
        pow2(self.shift as nat) as int
    }

    /// The radius that a single-precision bit pattern stands for. Minus zero
    /// is zero. The numerator is the pattern's significand and the
    /// denominator the power of two that scales it down.
    pub fn from_bits(bits: u32) -> (r: Result<BlurRadius, BlurError>)
        ensures
            match r {
                Ok(radius) => {
                    &&& exponent_field(bits) != 255
                    &&& sign_field(bits) == 0 || significand(bits) == 0
                    &&& scale(bits) <= 0
                    &&& radius.num() == significand(bits)
                    &&& radius.den() == pow2((-scale(bits)) as nat)
                },
                Err(BlurError::NotFinite) => exponent_field(bits) == 255,
                Err(BlurError::Negative) => {
                    &&& exponent_field(bits) != 255
                    &&& sign_field(bits) == 1
                    &&& significand(bits) != 0
                },
                Err(BlurError::TooLarge) => {
                    &&& exponent_field(bits) != 255
                    &&& sign_field(bits) == 0
                    &&& scale(bits) > 0
                },
                Err(BlurError::LengthMismatch) => false,
            },
    {
        let sign: u32 = bits / 0x8000_0000;
        let exponent: u32 = (bits / 0x80_0000) % 0x100;
        let fraction: u32 = bits % 0x80_0000;
        if exponent == 255 {
            return Err(BlurError::NotFinite);
        }
        let mantissa: u32 = if exponent == 0 {
            fraction
        } else {
            0x80_0000 + fraction
        };
        if sign == 1 && mantissa != 0 {
            return Err(BlurError::Negative);
        }
        if exponent > 150 {
            return Err(BlurError::TooLarge);
        }
        let shift: u32 = if exponent == 0 {
            149
        } else {
            150 - exponent
        };
        Ok(BlurRadius { mantissa, shift })
    }

    /// The numerator.
    pub fn mantissa(&self) -> (m: u32)
        ensures
            m == self.num(),
            m < 0x100_0000,
    {
        proof {
            use_type_invariant(self);
        }
        self.mantissa
    }

    /// The binary logarithm of the denominator.
    pub fn shift(&self) -> (s: u32)
        ensures
            pow2(s as nat) == self.den(),
            s <= 149,
    {
        proof {
            use_type_invariant(self);
        }
        self.shift
    }

    /// Whether the radius is zero.
    pub fn is_zero(&self) -> (zero: bool)
        ensures
            zero == (self.num() == 0),
    {
        self.mantissa == 0
    }
}

} // verus!
