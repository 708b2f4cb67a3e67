//! The one-dimensional box filter: the mean of a window that slides along a
//! line of samples, with the line's end samples repeated beyond its ends.

use vstd::arithmetic::div_mod::{
    lemma_fundamental_div_mod, lemma_fundamental_div_mod_converse, lemma_mod_bound,
    lemma_mod_pos_bound,
};
use vstd::prelude::*;

verus! {

/// The largest radius of a box: its width `2 * radius + 1` is the largest odd `i32`.
pub const MAX_RADIUS: usize = 0x3fff_ffff;

/// The widest box, `2 * MAX_RADIUS + 1`.
pub const MAX_WINDOW: u64 = 0x7fff_ffff;

/// The sample that position `i` reads on a line of `len` samples: a position
/// before the line reads the first sample, one past it reads the last.
pub open spec fn clamp(i: int, len: int) -> int {
    if i < 0 {
        0
    } else if i >= len {
        len - 1
    } else {
        i
    }
}

/// The sum of the samples read at the positions `lo, lo + 1, .., hi - 1`.
pub open spec fn span_sum(line: Seq<u8>, lo: int, hi: int) -> int
    decreases hi - lo,
{
    if hi <= lo {
        0
    } else {
        span_sum(line, lo, hi - 1) + line[clamp(hi - 1, line.len() as int)]
    }
}

/// The sum of the `2 * radius + 1` samples read around `center`.
pub open spec fn window_sum(line: Seq<u8>, center: int, radius: int) -> int {
    span_sum(line, center - radius, center + radius + 1)
}

/// `sum / window` rounded to the nearest integer. A box has an odd number of
/// samples, and over an odd `window` no quotient lies halfway between two
/// integers (see `lemma_round_div_nearest`), so no rule for ties is needed.
pub open spec fn round_div(sum: int, window: int) -> int {
    (2 * sum + window) / (2 * window)
}

/// The rounded mean of the window of the given radius around `center`.
pub open spec fn box_mean(line: Seq<u8>, center: int, radius: int) -> int {
    round_div(window_sum(line, center, radius), 2 * radius + 1)
}

/// The line after one box filter of the given radius.
pub open spec fn box_line(line: Seq<u8>, radius: int) -> Seq<u8> {
    Seq::new(line.len(), |t: int| box_mean(line, t, radius) as u8)
}

/// A span of `hi - lo` samples sums to between `0` and `255 * (hi - lo)`.
pub proof fn lemma_span_sum_bounds(line: Seq<u8>, lo: int, hi: int)
    requires
        lo <= hi,
    ensures
        0 <= span_sum(line, lo, hi) <= 255 * (hi - lo),
    decreases hi - lo,
{
    if lo < hi {
        lemma_span_sum_bounds(line, lo, hi - 1);
    }
}

/// A span is the sum of its two parts.
pub proof fn lemma_span_sum_split(line: Seq<u8>, lo: int, mid: int, hi: int)
    requires
        lo <= mid <= hi,
    ensures
        span_sum(line, lo, hi) == span_sum(line, lo, mid) + span_sum(line, mid, hi),
    decreases hi - mid,
{
    if mid < hi {
        lemma_span_sum_split(line, lo, mid, hi - 1);
    }
}

/// A span of one position is the sample read there.
pub proof fn lemma_span_sum_single(line: Seq<u8>, at: int)
    ensures
        span_sum(line, at, at + 1) == line[clamp(at, line.len() as int)],
{
    assert(span_sum(line, at, at) == 0);
}

/// A span that ends at or before position 1 reads only the first sample.
pub proof fn lemma_span_sum_before(line: Seq<u8>, lo: int, hi: int)
    requires
        line.len() > 0,
        lo <= hi <= 1,
    ensures
        span_sum(line, lo, hi) == (hi - lo) * line[0],
    decreases hi - lo,
{
    let first = line[0];
    if lo < hi {
        lemma_span_sum_before(line, lo, hi - 1);
        assert((hi - lo) * first == (hi - 1 - lo) * first + first) by (nonlinear_arith);
    } else {
        assert((hi - lo) * first == 0) by (nonlinear_arith)
            requires
                hi == lo,
        ;
    }
}

/// A span that starts at or after the last position reads only the last sample.
pub proof fn lemma_span_sum_after(line: Seq<u8>, lo: int, hi: int)
    requires
        line.len() > 0,
        line.len() - 1 <= lo <= hi,
    ensures
        span_sum(line, lo, hi) == (hi - lo) * line[line.len() - 1],
    decreases hi - lo,
{
    let last = line[line.len() - 1];
    if lo < hi {
        lemma_span_sum_after(line, lo, hi - 1);
        assert((hi - lo) * last == (hi - 1 - lo) * last + last) by (nonlinear_arith);
    } else {
        assert((hi - lo) * last == 0) by (nonlinear_arith)
            requires
                hi == lo,
        ;
    }
}

/// Moving a window one position on adds the sample that enters at its far
/// edge and drops the sample that leaves at its near edge.
pub proof fn lemma_window_slide(line: Seq<u8>, center: int, radius: int)
    requires
        radius >= 0,
    ensures
        window_sum(line, center + 1, radius) == window_sum(line, center, radius) + line[clamp(
            center + radius + 1,
            line.len() as int,
        )] - line[clamp(center - radius, line.len() as int)],
{
    let lo = center - radius;
    let hi = center + radius + 1;
    lemma_span_sum_split(line, lo, lo + 1, hi);
    lemma_span_sum_single(line, lo);
    lemma_span_sum_split(line, lo + 1, hi, hi + 1);
    lemma_span_sum_single(line, hi);
}

/// A window holds `2 * radius + 1` samples, so its sum is at most `255` times as much.
pub proof fn lemma_window_sum_bounds(line: Seq<u8>, center: int, radius: int)
    requires
        radius >= 0,
    ensures
        0 <= window_sum(line, center, radius) <= 255 * (2 * radius + 1),
{
    lemma_span_sum_bounds(line, center - radius, center + radius + 1);
}

/// The rounded mean of samples is a sample value again.
pub proof fn lemma_round_div_bounds(sum: int, window: int)
    requires
        window >= 1,
        0 <= sum <= 255 * window,
    ensures
        0 <= round_div(sum, window) <= 255,
{
    let x = 2 * sum + window;
    let d = 2 * window;
    let q = x / d;
    lemma_fundamental_div_mod(x, d);
    lemma_mod_pos_bound(x, d);
    assert(q <= 255) by (nonlinear_arith)
        requires
            d * q <= x,
            x < 256 * d,
            d > 0,
    ;
    assert(q >= 0) by (nonlinear_arith)
        requires
            x < d * q + d,
            x >= 0,
            d > 0,
    ;
}

/// The mean of `window` equal samples is that sample.
pub proof fn lemma_round_div_exact(value: int, window: int)
    requires
        window >= 1,
    ensures
        round_div(window * value, window) == value,
{
    let x = 2 * (window * value) + window;
    assert(x == value * (2 * window) + window) by (nonlinear_arith)
        requires
            x == 2 * (window * value) + window,
    ;
    lemma_fundamental_div_mod_converse(x, 2 * window, value, window);
}

/// For an odd window the result is strictly the nearest integer: the sum
/// lies less than half a window from `window` times the result, so no other
/// rounding rule to the nearest could give another value.
pub proof fn lemma_round_div_nearest(sum: int, window: int)
    requires
        window >= 1,
        window % 2 == 1,
    ensures
        -window < 2 * (sum - window * round_div(sum, window)) < window,
{
    let x = 2 * sum + window;
    let d = 2 * window;
    let q = x / d;
    lemma_fundamental_div_mod(x, d);
    lemma_mod_bound(x, d);
    let r = x % d;
    assert(d * q == 2 * (window * q)) by (nonlinear_arith)
        requires
            d == 2 * window,
    ;
    // r and window have the same parity as x, and window is odd, so r is not 0.
    assert(r != 0);
}

/// The mean of a window of `window` samples that sum to `sum`, rounded to
/// the nearest integer.
pub fn round(sum: u64, window: u64) -> (mean: u8)
    requires
        1 <= window <= MAX_WINDOW,
        window % 2 == 1,
        sum <= 255 * window,
    ensures
        mean == round_div(sum as int, window as int),
{
    proof {
        lemma_round_div_bounds(sum as int, window as int);
    }
    let q: u64 = (2 * sum + window) / (2 * window);
    q as u8
}

} // verus!
