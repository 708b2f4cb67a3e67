//! Approximate Gaussian blur of 8-bit images by repeated box filters.
//!
//! A blur of standard deviation `sigma` is one box-filter pass for each of a
//! few planned box widths. A pass takes the rounded mean of a sliding window
//! along every row and then down every column, channel by channel, with the
//! edge pixels repeated beyond the image. The module `plan` chooses the
//! widths, `window` defines the filter of one line, `pass` runs it over an
//! image, and `gaussian` chains the passes.

pub mod gaussian;
pub mod pass;
pub mod plan;
pub mod radius;
pub mod window;

pub use crate::gaussian::{gaussian_blur, run};
pub use crate::pass::{box_blur, box_blur_horz, box_blur_vert};
pub use crate::plan::create_box_gauss;
pub use crate::radius::{BlurError, BlurRadius};
pub use crate::window::round;

use crate::gaussian::{blur_plane, blurred};
use crate::pass::{channel, lemma_cell, lemma_cell_of};
use crate::plan::box_widths;
use vstd::prelude::*;

verus! {

/// Channel `c` of an image held as bytes, pixel after pixel, `channels`
/// bytes to a pixel.
pub open spec fn samples(bytes: Seq<u8>, channels: int, c: int) -> Seq<u8> {
    Seq::new((bytes.len() as int / channels) as nat, |i: int| bytes[i * channels + c])
}

/// `after` is the byte image `before` blurred with the given box widths.
pub open spec fn blurred_bytes(
    before: Seq<u8>,
    after: Seq<u8>,
    channels: int,
    width: int,
    height: int,
    widths: Seq<int>,
) -> bool {
    &&& after.len() == before.len()
    &&& forall|c: int|
        0 <= c < channels ==> #[trigger] samples(after, channels, c) == blur_plane(
            samples(before, channels, c),
            width,
            height,
            widths,
        )
}

/// The pixels that the bytes hold.
fn pack<const C: usize>(bytes: &[u8], count: usize) -> (pixels: Vec<[u8; C]>)
    requires
        bytes.len() == count * C,
    ensures
        pixels.len() == count,
        forall|i: int, c: int|
            0 <= i < count && 0 <= c < C ==> #[trigger] pixels[i][c] == bytes[i * C + c],
{
    let mut pixels: Vec<[u8; C]> = Vec::with_capacity(count);
    let mut i: usize = 0;
    let mut at: usize = 0;
    while i < count
        invariant
            i <= count,
            at == i * C,
            bytes.len() == count * C,
            pixels.len() == i,
            forall|k: int, c: int|
                0 <= k < i && 0 <= c < C ==> #[trigger] pixels[k][c] == bytes[k * C + c],
        decreases count - i,
    {
        proof {
            assert((i + 1) * C <= count * C) by (nonlinear_arith)
                requires
                    i + 1 <= count,
            ;
            assert((i + 1) * C == i * C + C) by (nonlinear_arith);
        }
        let mut px: [u8; C] = [0u8; C];
        let mut c: usize = 0;
        while c < C
            invariant
                c <= C,
                at + C <= bytes.len(),
                forall|k: int| 0 <= k < c ==> #[trigger] px[k] == bytes[at + k],
            decreases C - c,
        {
            px[c] = bytes[at + c];
            c += 1;
        }
        pixels.push(px);
        at += C;
        i += 1;
    }
    pixels
}

/// Writes the pixels back over the bytes they were made from.
fn unpack<const C: usize>(pixels: &[[u8; C]], bytes: &mut [u8])
    requires
        old(bytes).len() == pixels.len() * C,
    ensures
        final(bytes).len() == old(bytes).len(),
        forall|i: int, c: int|
            0 <= i < pixels.len() && 0 <= c < C ==> final(bytes)[i * C + c]
                == #[trigger] pixels[i][c],
{
    let count: usize = pixels.len();
    let mut i: usize = 0;
    let mut at: usize = 0;
    while i < count
        invariant
            i <= count,
            count == pixels.len(),
            at == i * C,
            bytes.len() == count * C,
            forall|j: int| 0 <= j < at ==> #[trigger] bytes[j] == pixels[j / (C as int)][j % (C as int)],
        decreases count - i,
    {
        proof {
            assert((i + 1) * C <= count * C) by (nonlinear_arith)
                requires
                    i + 1 <= count,
            ;
            assert((i + 1) * C == i * C + C) by (nonlinear_arith);
        }
        let px: &[u8; C] = &pixels[i];
        let mut c: usize = 0;
        while c < C
            invariant
                c <= C,
                i < count,
                count == pixels.len(),
                at == i * C,
                bytes.len() == count * C,
                at + C <= bytes.len(),
                *px == pixels[i as int],
                forall|j: int|
                    0 <= j < at + c ==> #[trigger] bytes[j] == pixels[j / (C as int)][j % (
                    C as int)],
            decreases C - c,
        {
            proof {
                lemma_cell(C as int, c as int, i as int);
            }
            bytes[at + c] = px[c];
            c += 1;
        }
        at += C;
        i += 1;
    }
    proof {
        assert forall|i: int, c: int| 0 <= i < pixels.len() && 0 <= c < C implies bytes[i * C + c]
            == #[trigger] pixels[i][c] by {
            lemma_cell(C as int, c, i);
            assert(i * C + c < count * C) by (nonlinear_arith)
                requires
                    0 <= i < count,
                    0 <= c < C,
            ;
        }
    }
}

/// Blurs an image held as bytes in place: `width * height` pixels, row by
/// row, `CHANNELS` bytes to a pixel. A buffer of another length is refused
/// and left as it is.
///
/// The bytes are copied into pixels for the blur and copied back after it,
/// which takes one buffer of the image's size more than `gaussian_blur` does.
pub fn blur<const CHANNELS: usize>(
    buffer: &mut [u8],
    width: u32,
    height: u32,
    radius: BlurRadius,
) -> (r: Result<(), BlurError>)
    ensures
        final(buffer).len() == old(buffer).len(),
        match r {
            Ok(()) => {
                &&& old(buffer).len() == CHANNELS * width * height
                &&& blurred_bytes(
                    old(buffer)@,
                    final(buffer)@,
                    CHANNELS as int,
                    width as int,
                    height as int,
                    box_widths(radius.num(), radius.den(), CHANNELS as int),
                )
            },
            Err(e) => {
                &&& e == BlurError::LengthMismatch
                &&& old(buffer).len() != CHANNELS * width * height
                &&& final(buffer)@ == old(buffer)@
            },
        },
        radius.num() == 0 ==> final(buffer)@ == old(buffer)@,
{
    let ghost before: Seq<u8> = buffer@;
    let ghost ch: int = CHANNELS as int;
    let ghost w: int = width as int;
    let ghost h: int = height as int;
    proof {
        assert(CHANNELS * width * height == (width * height) * CHANNELS) by (nonlinear_arith);
    }
    if CHANNELS == 0 {
        if buffer.len() == 0 {
            return Ok(());
        } else {
            return Err(BlurError::LengthMismatch);
        }
    }
    let count: usize = match (width as usize).checked_mul(height as usize) {
        Some(count) => count,
        None => {
            proof {
                assert((width * height) * CHANNELS >= width * height) by (nonlinear_arith)
                    requires
                        CHANNELS >= 1,
                        width * height >= 0,
                ;
            }
            return Err(BlurError::LengthMismatch);
        },
    };
    let fits: bool = match count.checked_mul(CHANNELS) {
        Some(bytes) => bytes == buffer.len(),
        None => false,
    };
    if !fits {
        return Err(BlurError::LengthMismatch);
    }
    let mut pixels: Vec<[u8; CHANNELS]> = pack::<CHANNELS>(buffer, count);
    let ghost packed: Seq<[u8; CHANNELS]> = pixels@;
    match gaussian_blur(pixels.as_mut_slice(), width as usize, height as usize, radius) {
        Ok(()) => {
            unpack(pixels.as_slice(), buffer);
            proof {
                let widths = box_widths(radius.num(), radius.den(), ch);
                lemma_cell(ch, 0, count as int);
                assert forall|c: int| 0 <= c < ch implies #[trigger] samples(buffer@, ch, c)
                    == blur_plane(samples(before, ch, c), w, h, widths) by {
                    assert(samples(buffer@, ch, c) =~= channel(pixels@, c));
                    assert(samples(before, ch, c) =~= channel(packed, c));
                }
                if radius.num() == 0 {
                    assert forall|j: int| 0 <= j < buffer.len() implies buffer@[j] == before[j] by {
                        assert(ch * count == count * ch) by (nonlinear_arith);
                        lemma_cell_of(j, ch, count as int);
                        assert(pixels@[j / ch][j % ch] == before[(j / ch) * ch + j % ch]);
                    }
                    assert(buffer@ =~= before);
                }
            }
            Ok(())
        },
        Err(e) => Err(e),
    }
}

} // verus!
