//! The widths of the boxes whose repeated filters stand in for a Gaussian of
//! a given standard deviation.
//!
//! For `n` passes and a deviation `sigma` the ideal box width is
//! `sqrt(12 * sigma^2 / n + 1)`. The passes use the odd widths on either side
//! of it, the lower one as often as brings the summed variance of the boxes
//! closest to `sigma^2`. All of it is computed exactly, on the fraction
//! `num / den` that the deviation is.

use crate::radius::BlurRadius;
use vstd::arithmetic::div_mod::{lemma_fundamental_div_mod, lemma_mod_bound};
use vstd::arithmetic::power2::{
    lemma2_to64, lemma_pow2_pos, lemma_pow2_strictly_increases, lemma_pow2_unfold, pow2,
};
use vstd::prelude::*;

verus! {

/// `root` is the square root of `x`, rounded down.
pub open spec fn is_floor_sqrt(root: int, x: int) -> bool {
    0 <= root && root * root <= x < (root + 1) * (root + 1)
}

/// The square root of `x`, rounded down.
pub open spec fn floor_sqrt(x: int) -> int {
    choose|root: int| is_floor_sqrt(root, x)
}

/// The ideal box width, rounded down: the root of `12 * sigma^2 / n + 1`.
pub open spec fn ideal_width_floor(num: int, den: int, n: int) -> int {
    floor_sqrt((12 * num * num + n * den * den) / (n * den * den))
}

/// The largest odd width that is not above the ideal width.
pub open spec fn lower_width(num: int, den: int, n: int) -> int {
    let w = ideal_width_floor(num, den, n);
    if w % 2 == 0 {
        w - 1
    } else {
        w
    }
}

/// How many passes use the lower width `wl`: the quotient
/// `(n * wl^2 + 4 * n * wl + 3 * n - 12 * sigma^2) / (4 * wl + 4)`,
/// rounded to the nearest integer, a half rounded up.
pub open spec fn lower_count(num: int, den: int, n: int) -> int {
    let wl = lower_width(num, den, n);
    let x = n * den * den * (wl * wl + 4 * wl + 3) - 12 * num * num;
    let y = den * den * (4 * wl + 4);
    (2 * x + y) / (2 * y)
}

/// The box widths of `n` passes for the deviation `num / den`: first the
/// lower width, `lower_count` times, then the next odd width. A deviation of
/// zero gives boxes of width 1, which change nothing.
pub open spec fn box_widths(num: int, den: int, n: int) -> Seq<int> {
    if num <= 0 {
        Seq::new(n as nat, |i: int| 1int)
    } else {
        Seq::new(
            n as nat,
            |i: int|
                if i < lower_count(num, den, n) {
                    lower_width(num, den, n)
                } else {
                    lower_width(num, den, n) + 2
                },
        )
    }
}

/// Twelve times the summed variance of the first `k` boxes: a box of width
/// `w` has the variance `(w^2 - 1) / 12`.
pub open spec fn variance_twelfths(widths: Seq<int>, k: int) -> int
    decreases k,
{
    if k <= 0 {
        0
    } else {
        variance_twelfths(widths, k - 1) + widths[k - 1] * widths[k - 1] - 1
    }
}

/// No number has two rounded-down square roots.
pub proof fn lemma_floor_sqrt_unique(a: int, b: int, x: int)
    requires
        is_floor_sqrt(a, x),
        is_floor_sqrt(b, x),
    ensures
        a == b,
{
    if a < b {
        assert((a + 1) * (a + 1) <= b * b) by (nonlinear_arith)
            requires
                0 <= a + 1 <= b,
        ;
    }
    if b < a {
        assert((b + 1) * (b + 1) <= a * a) by (nonlinear_arith)
            requires
                0 <= b + 1 <= a,
        ;
    }
}

/// Every number from 0 on has a rounded-down square root.
pub proof fn lemma_floor_sqrt_exists(x: int)
    requires
        0 <= x,
    ensures
        is_floor_sqrt(floor_sqrt(x), x),
    decreases x,
{
    if x == 0 {
        assert(is_floor_sqrt(0, x));
    } else {
        lemma_floor_sqrt_exists(x - 1);
        let r = floor_sqrt(x - 1);
        if (r + 1) * (r + 1) <= x {
            assert((r + 2) * (r + 2) > (r + 1) * (r + 1)) by (nonlinear_arith)
                requires
                    0 <= r,
            ;
            assert(is_floor_sqrt(r + 1, x));
        } else {
            assert(is_floor_sqrt(r, x));
        }
    }
}

/// A number that brackets `x` between its square and the next is its rounded-down root.
pub proof fn lemma_floor_sqrt_is(root: int, x: int)
    requires
        is_floor_sqrt(root, x),
    ensures
        floor_sqrt(x) == root,
{
    lemma_floor_sqrt_unique(floor_sqrt(x), root, x);
}

/// The lower width is odd and at least 1, and the ideal width lies from it
/// up to, but not at, the next odd width: with `b = n * den^2`,
/// `b * wl^2 <= 12 * num^2 + b < b * (wl + 2)^2`.
pub proof fn lemma_lower_width(num: int, den: int, n: int)
    requires
        0 <= num,
        1 <= den,
        1 <= n,
    ensures
        lower_width(num, den, n) >= 1,
        lower_width(num, den, n) % 2 == 1,
        n * den * den >= 1,
        n * den * den * (lower_width(num, den, n) * lower_width(num, den, n)) <= 12 * num * num
            + n * den * den,
        12 * num * num + n * den * den < n * den * den * ((lower_width(num, den, n) + 2) * (
        lower_width(num, den, n) + 2)),
{
    let b = n * den * den;
    assert(b >= 1) by (nonlinear_arith)
        requires
            b == n * den * den,
            1 <= den,
            1 <= n,
    ;
    let pp = 12 * num * num;
    assert(pp >= 0) by (nonlinear_arith)
        requires
            pp == 12 * num * num,
    ;
    let a = pp + b;
    let ratio = a / b;
    lemma_fundamental_div_mod(a, b);
    lemma_mod_bound(a, b);
    assert(ratio >= 1) by (nonlinear_arith)
        requires
            a < b * ratio + b,
            a >= b,
            b >= 1,
    ;
    lemma_floor_sqrt_exists(ratio);
    let w0 = floor_sqrt(ratio);
    let wl = lower_width(num, den, n);
    assert(w0 >= 1) by {
        if w0 == 0 {
            assert((w0 + 1) * (w0 + 1) == 1) by (nonlinear_arith)
                requires
                    w0 == 0,
            ;
        }
    }
    assert(wl * wl <= w0 * w0) by (nonlinear_arith)
        requires
            0 <= wl <= w0,
    ;
    assert((wl + 2) * (wl + 2) >= (w0 + 1) * (w0 + 1)) by (nonlinear_arith)
        requires
            0 <= w0 + 1 <= wl + 2,
    ;
    assert(b * (wl * wl) <= b * ratio) by (nonlinear_arith)
        requires
            wl * wl <= ratio,
            b >= 0,
    ;
    assert(b * ratio + b <= b * ((wl + 2) * (wl + 2))) by (nonlinear_arith)
        requires
            ratio + 1 <= (wl + 2) * (wl + 2),
            b >= 0,
    ;
}

/// The lower width is used for between 0 and `n` passes, and that count is
/// the nearest integer to the exact quotient: with
/// `x = n * den^2 * (wl^2 + 4 * wl + 3) - 12 * num^2` and
/// `y = den^2 * (4 * wl + 4)`, `x` lies within half of `y` of `count * y`.
pub proof fn lemma_lower_count(num: int, den: int, n: int)
    requires
        0 <= num,
        1 <= den,
        1 <= n,
    ensures
        0 <= lower_count(num, den, n) <= n,
        ({
            let wl = lower_width(num, den, n);
            let x = n * den * den * (wl * wl + 4 * wl + 3) - 12 * num * num;
            let y = den * den * (4 * wl + 4);
            &&& 0 < x <= n * y
            &&& 0 < y
            &&& -y <= 2 * (x - lower_count(num, den, n) * y) < y
        }),
{
    lemma_lower_width(num, den, n);
    let wl = lower_width(num, den, n);
    let b = n * den * den;
    let pp = 12 * num * num;
    let t = wl * wl + 4 * wl + 3;
    let k = 4 * wl + 4;
    let x = b * t - pp;
    let dd = den * den;
    let y = dd * k;
    let m = lower_count(num, den, n);
    assert((wl + 2) * (wl + 2) == t + 1) by (nonlinear_arith)
        requires
            t == wl * wl + 4 * wl + 3,
    ;
    assert(b * (t + 1) == b * t + b) by (nonlinear_arith);
    assert(x > 0);
    assert(dd >= 1) by (nonlinear_arith)
        requires
            dd == den * den,
            1 <= den,
    ;
    assert(y >= 8) by (nonlinear_arith)
        requires
            y == dd * k,
            dd >= 1,
            k >= 8,
    ;
    assert(n * y == b * k) by (nonlinear_arith)
        requires
            y == (den * den) * k,
            b == n * den * den,
    ;
    assert(b * t == b * (wl * wl) + b * k - b) by (nonlinear_arith)
        requires
            t == wl * wl + k - 1,
    ;
    assert(x <= n * y);
    lemma_fundamental_div_mod(2 * x + y, 2 * y);
    lemma_mod_bound(2 * x + y, 2 * y);
    assert((2 * y) * m == 2 * (m * y)) by (nonlinear_arith);
    assert(m >= 0) by (nonlinear_arith)
        requires
            2 * x + y < (2 * y) * m + 2 * y,
            2 * x + y >= 0,
            y > 0,
    ;
    assert(m <= n) by (nonlinear_arith)
        requires
            (2 * y) * m <= 2 * x + y,
            x <= n * y,
            y > 0,
    ;
}

/// Every box width is odd and at least 1.
pub proof fn lemma_box_widths_odd(num: int, den: int, n: int, i: int)
    requires
        0 <= num,
        1 <= den,
        0 <= i < n,
    ensures
        box_widths(num, den, n).len() == n,
        box_widths(num, den, n)[i] >= 1,
        box_widths(num, den, n)[i] % 2 == 1,
{
    lemma_lower_width(num, den, n);
}

/// A deviation of zero plans boxes of width 1 only.
pub proof fn lemma_box_widths_zero(den: int, n: int)
    ensures
        box_widths(0, den, n) == Seq::new(n as nat, |i: int| 1int),
{
}

/// A deviation whose square is at most a third plans boxes of width 1 only.
pub proof fn lemma_box_widths_small(num: int, den: int, n: int)
    requires
        0 <= num,
        1 <= den,
        0 <= n,
        3 * num * num <= den * den,
    ensures
        box_widths(num, den, n) == Seq::new(n as nat, |i: int| 1int),
{
    if num > 0 && n > 0 {
        lemma_lower_width(num, den, n);
        let wl = lower_width(num, den, n);
        let b = n * den * den;
        let dd = den * den;
        let pp = 12 * num * num;
        assert(pp == 4 * (3 * num * num)) by (nonlinear_arith)
            requires
                pp == 12 * num * num,
        ;
        assert(b >= dd) by (nonlinear_arith)
            requires
                b == n * den * den,
                dd == den * den,
                n >= 1,
                den >= 1,
        ;
        // b * wl^2 <= 12 num^2 + b <= 5 b, so wl^2 <= 5 and wl is 1
        assert(wl < 3) by (nonlinear_arith)
            requires
                b * (wl * wl) <= 5 * b,
                b >= 1,
                wl >= 1,
        ;
        assert(wl == 1);
        let x = b * (wl * wl + 4 * wl + 3) - pp;
        let y = dd * (4 * wl + 4);
        assert(x == 8 * b - pp) by (nonlinear_arith)
            requires
                x == b * (wl * wl + 4 * wl + 3) - pp,
                wl == 1,
        ;
        assert(y == 8 * dd) by (nonlinear_arith)
            requires
                y == dd * (4 * wl + 4),
                wl == 1,
        ;
        assert(b == n * dd) by (nonlinear_arith)
            requires
                b == n * den * den,
                dd == den * den,
        ;
        let rem = 8 * dd - 2 * pp;
        assert(2 * x + y == n * (2 * y) + rem) by (nonlinear_arith)
            requires
                x == 8 * b - pp,
                y == 8 * dd,
                b == n * dd,
                rem == 8 * dd - 2 * pp,
        ;
        vstd::arithmetic::div_mod::lemma_fundamental_div_mod_converse(2 * x + y, 2 * y, n, rem);
        assert(lower_count(num, den, n) == n);
        assert(box_widths(num, den, n) =~= Seq::new(n as nat, |i: int| 1int));
    } else {
        assert(box_widths(num, den, n) =~= Seq::new(n as nat, |i: int| 1int));
    }
}

/// Twelve times the summed variance of the first `k` planned boxes: the
/// lower width counts for the first `lower_count` of them, the upper width
/// for the rest.
pub proof fn lemma_variance_prefix(num: int, den: int, n: int, k: int)
    requires
        0 < num,
        1 <= den,
        1 <= n,
        0 <= k <= n,
    ensures
        ({
            let wl = lower_width(num, den, n);
            let m = lower_count(num, den, n);
            let low = wl * wl - 1;
            let high = (wl + 2) * (wl + 2) - 1;
            variance_twelfths(box_widths(num, den, n), k) == if k <= m {
                k * low
            } else {
                m * low + (k - m) * high
            }
        }),
    decreases k,
{
    let wl = lower_width(num, den, n);
    let m = lower_count(num, den, n);
    let low = wl * wl - 1;
    let high = (wl + 2) * (wl + 2) - 1;
    lemma_lower_count(num, den, n);
    if k > 0 {
        lemma_variance_prefix(num, den, n, k - 1);
        let w = box_widths(num, den, n)[k - 1];
        assert(variance_twelfths(box_widths(num, den, n), k) == variance_twelfths(
            box_widths(num, den, n),
            k - 1,
        ) + w * w - 1);
        if k <= m {
            assert(w == wl);
            assert(w * w - 1 == low);
            assert(k * low == (k - 1) * low + low) by (nonlinear_arith);
        } else {
            assert(w == wl + 2);
            assert(w * w - 1 == high);
            assert((k - m) * high == (k - 1 - m) * high + high) by (nonlinear_arith);
            if k - 1 == m {
                assert((k - 1 - m) * high == 0) by (nonlinear_arith)
                    requires
                        k - 1 == m,
                ;
            }
        }
    } else {
        assert(k * low == 0) by (nonlinear_arith)
            requires
                k == 0,
        ;
    }
}

/// The planned boxes conserve the variance up to the rounding of the count:
/// their summed variance, the sum of `(w^2 - 1) / 12`, differs from
/// `sigma^2` by at most `(wl + 1) / 6`, where `wl` is the lower width.
/// Cleared of fractions: `den^2 * sum(w^2 - 1)` differs from `12 * num^2`
/// by at most `den^2 * (2 * wl + 2)`.
pub proof fn lemma_variance_conserved(num: int, den: int, n: int)
    requires
        0 < num,
        1 <= den,
        1 <= n,
    ensures
        ({
            let twelfths = variance_twelfths(box_widths(num, den, n), n);
            let slack = den * den * (2 * lower_width(num, den, n) + 2);
            -slack <= den * den * twelfths - 12 * num * num <= slack
        }),
{
    lemma_lower_count(num, den, n);
    lemma_variance_prefix(num, den, n, n);
    let wl = lower_width(num, den, n);
    let m = lower_count(num, den, n);
    let t = wl * wl + 4 * wl + 3;
    let k = 4 * wl + 4;
    let dd = den * den;
    let b = n * den * den;
    let x = b * t - 12 * num * num;
    let y = dd * k;
    let twelfths = variance_twelfths(box_widths(num, den, n), n);
    assert((wl + 2) * (wl + 2) - 1 == t) by (nonlinear_arith)
        requires
            t == wl * wl + 4 * wl + 3,
    ;
    assert(twelfths == m * (t - k) + (n - m) * t) by {
        if n <= m {
            assert((n - m) * t == 0) by (nonlinear_arith)
                requires
                    n == m,
            ;
        }
    }
    assert(twelfths == n * t - m * k) by (nonlinear_arith)
        requires
            twelfths == m * (t - k) + (n - m) * t,
    ;
    assert(dd * twelfths == b * t - m * y) by (nonlinear_arith)
        requires
            twelfths == n * t - m * k,
            b == n * den * den,
            dd == den * den,
            y == dd * k,
    ;
    assert(dd * (2 * wl + 2) * 2 == y) by (nonlinear_arith)
        requires
            y == dd * k,
            k == 4 * wl + 4,
    ;
}

/// From a deviation of 12 on, the summed variance of the planned boxes is
/// within a twentieth of `sigma^2`, whatever the number of passes.
pub proof fn lemma_variance_within_a_twentieth(num: int, den: int, n: int)
    requires
        1 <= den,
        12 * den <= num,
        1 <= n,
    ensures
        ({
            let twelfths = variance_twelfths(box_widths(num, den, n), n);
            let target = 12 * num * num;
            -target <= 20 * (den * den * twelfths - target) <= target
        }),
{
    lemma_lower_width(num, den, n);
    lemma_variance_conserved(num, den, n);
    let wl = lower_width(num, den, n);
    let b = n * den * den;
    let dd = den * den;
    let pp = num * num;
    assert(b == n * dd) by (nonlinear_arith)
        requires
            b == n * den * den,
            dd == den * den,
    ;
    assert(dd >= 1) by (nonlinear_arith)
        requires
            dd == den * den,
            1 <= den,
    ;
    assert(12 * num * num == 12 * pp) by (nonlinear_arith)
        requires
            pp == num * num,
    ;
    assert(4 * dd <= pp) by (nonlinear_arith)
        requires
            dd == den * den,
            pp == num * num,
            1 <= den,
            12 * den <= num,
    ;
    // more passes only lower the width: wl^2 <= 12 * sigma^2 + 1
    assert(b * (wl * wl) <= 12 * pp + b);
    assert(dd * (wl * wl) <= 12 * pp + dd) by (nonlinear_arith)
        requires
            b * (wl * wl) <= 12 * pp + b,
            b == n * dd,
            n >= 1,
            dd >= 1,
            wl >= 1,
    ;
    let u = 2 * wl * den;
    assert(u * u == 4 * (dd * (wl * wl))) by (nonlinear_arith)
        requires
            u == 2 * wl * den,
            dd == den * den,
    ;
    assert(u <= 7 * num) by (nonlinear_arith)
        requires
            u * u <= 49 * pp,
            pp == num * num,
            0 <= u,
            0 <= num,
    ;
    assert(dd * (10 * wl + 10) == 5 * (den * u) + 10 * dd) by (nonlinear_arith)
        requires
            u == 2 * wl * den,
            dd == den * den,
    ;
    assert(den * u <= 7 * (num * den)) by (nonlinear_arith)
        requires
            u <= 7 * num,
            1 <= den,
    ;
    assert(35 * (num * den) + 10 * dd <= 3 * pp) by (nonlinear_arith)
        requires
            dd == den * den,
            pp == num * num,
            1 <= den,
            12 * den <= num,
    ;
    assert(dd * (2 * wl + 2) * 5 == dd * (10 * wl + 10)) by (nonlinear_arith);
}

/// The square root of `x`, rounded down.
pub fn isqrt(x: u64) -> (root: u64)
    ensures
        root == floor_sqrt(x as int),
        is_floor_sqrt(root as int, x as int),
{
    let mut lo: u64 = 0;
    let mut hi: u64 = 0x1_0000_0000;
    while hi - lo > 1
        invariant
            lo < hi <= 0x1_0000_0000,
            lo * lo <= x < hi * hi,
        decreases hi - lo,
    {
        let mid: u64 = lo + (hi - lo) / 2;
        assert(mid * mid <= 0xffff_ffff * 0xffff_ffff) by (nonlinear_arith)
            requires
                mid <= 0xffff_ffff,
        ;
        if mid * mid <= x {
            lo = mid;
        } else {
            hi = mid;
        }
    }
    proof {
        lemma_floor_sqrt_is(lo as int, x as int);
    }
    lo
}

/// `2^shift`.
fn power_of_two(shift: u32) -> (q: u128)
    requires
        shift <= 24,
    ensures
        q == pow2(shift as nat),
        1 <= q <= 0x100_0000,
{
    let mut q: u128 = 1;
    let mut i: u32 = 0;
    proof {
        lemma2_to64();
    }
    while i < shift
        invariant
            i <= shift <= 24,
            q == pow2(i as nat),
            1 <= q <= 0x100_0000,
            pow2(24) == 0x100_0000,
        decreases shift - i,
    {
        proof {
            lemma_pow2_unfold((i + 1) as nat);
            if i + 1 < 24 {
                lemma_pow2_strictly_increases((i + 1) as nat, 24);
            }
        }
        q = 2 * q;
        i += 1;
    }
    q
}

/// The box widths of `N` passes for the deviation `sigma`.
pub fn create_box_gauss<const N: usize>(sigma: BlurRadius) -> (sizes: [i32; N])
    ensures
        forall|i: int|
            0 <= i < N ==> #[trigger] sizes[i] == box_widths(sigma.num(), sigma.den(), N as int)[i],
        forall|i: int| 0 <= i < N ==> #[trigger] sizes[i] >= 1 && sizes[i] % 2 == 1,
{
    let mut sizes: [i32; N] = [1i32; N];
    let mantissa: u32 = sigma.mantissa();
    let shift: u32 = sigma.shift();
    let ghost num: int = sigma.num();
    let ghost den: int = sigma.den();
    proof {
        lemma_pow2_pos(shift as nat);
    }
    if N == 0 || mantissa == 0 {
        return sizes;
    }
    if shift > 24 {
        proof {
            lemma2_to64();
            if shift > 25 {
                lemma_pow2_strictly_increases(25, shift as nat);
            }
            assert(3 * num * num <= den * den) by (nonlinear_arith)
                requires
                    0 <= num < 0x100_0000,
                    den >= 0x200_0000,
            ;
            lemma_box_widths_small(num, den, N as int);
        }
        return sizes;
    }
    let p: u128 = mantissa as u128;
    let q: u128 = power_of_two(shift);
    let n: u128 = N as u128;
    proof {
        lemma_lower_width(num, den, n as int);
        lemma_lower_count(num, den, n as int);
        assert(n * q <= 0xffff_ffff_ffff_ffff * 0x100_0000) by (nonlinear_arith)
            requires
                n <= 0xffff_ffff_ffff_ffff,
                q <= 0x100_0000,
        ;
        assert(n * q * q <= 0xffff_ffff_ffff_ffff * 0x100_0000 * 0x100_0000) by (nonlinear_arith)
            requires
                0 <= n * q <= 0xffff_ffff_ffff_ffff * 0x100_0000,
                q <= 0x100_0000,
        ;
        assert(12 * p <= 12 * 0x100_0000);
        assert(12 * p * p <= 12 * 0x100_0000 * 0x100_0000) by (nonlinear_arith)
            requires
                0 <= 12 * p <= 12 * 0x100_0000,
                p <= 0x100_0000,
        ;
        assert(q * q <= 0x100_0000 * 0x100_0000) by (nonlinear_arith)
            requires
                q <= 0x100_0000,
        ;
    }
    let b: u128 = n * q * q;
    let pp: u128 = 12 * p * p;
    let a: u128 = pp + b;
    let ratio: u128 = a / b;
    proof {
        lemma_fundamental_div_mod(a as int, b as int);
        lemma_mod_bound(a as int, b as int);
        assert(ratio <= pp + 1) by (nonlinear_arith)
            requires
                b * ratio <= pp + b,
                b >= 1,
                ratio >= 0,
        ;
    }
    let w0: u64 = isqrt(ratio as u64);
    assert(w0 == ideal_width_floor(num, den, n as int));
    let wl: u64 = if w0 % 2 == 0 {
        w0 - 1
    } else {
        w0
    };
    assert(wl == lower_width(num, den, n as int));
    proof {
        assert(w0 < 0x400_0000) by (nonlinear_arith)
            requires
                w0 * w0 <= ratio,
                ratio < 0x400_0000 * 0x400_0000,
        ;
    }
    let wide: u128 = wl as u128;
    proof {
        assert(wide * wide <= 0x400_0000 * 0x400_0000) by (nonlinear_arith)
            requires
                wide <= 0x400_0000,
        ;
    }
    let t: u128 = wide * wide + 4 * wide + 3;
    proof {
        assert(t <= 8 * (wide * wide)) by (nonlinear_arith)
            requires
                t == wide * wide + 4 * wide + 3,
                wide >= 1,
        ;
        assert(b * t <= 8 * a) by (nonlinear_arith)
            requires
                b * (wide * wide) <= a,
                t <= 8 * (wide * wide),
                b >= 0,
        ;
        assert(q * q * (4 * wide + 4) <= 0x100_0000 * 0x100_0000 * 0x2000_0000)
            by (nonlinear_arith)
            requires
                0 <= q * q <= 0x100_0000 * 0x100_0000,
                0 <= 4 * wide + 4 <= 0x2000_0000,
        ;
    }
    let x: u128 = b * t - pp;
    let y: u128 = q * q * (4 * wide + 4);
    let m: u128 = (2 * x + y) / (2 * y);
    assert(m == lower_count(num, den, n as int));
    let lower: i32 = wl as i32;
    let upper: i32 = lower + 2;
    let mut i: usize = 0;
    while i < N
        invariant
            i <= N,
            0 < num,
            n == N,
            lower == lower_width(num, den, n as int),
            upper == lower + 2,
            m == lower_count(num, den, n as int),
            lower >= 1 && lower % 2 == 1,
            forall|k: int|
                0 <= k < i ==> #[trigger] sizes[k] == box_widths(num, den, N as int)[k],
            forall|k: int| 0 <= k < i ==> #[trigger] sizes[k] >= 1 && sizes[k] % 2 == 1,
        decreases N - i,
    {
        sizes[i] = if (i as u128) < m {
            lower
        } else {
            upper
        };
        i += 1;
    }
    sizes
}

} // verus!
