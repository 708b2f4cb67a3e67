//! One box-filter pass over an image of pixels with `C` channels each: every
//! row, then every column, each channel on its own.
//!
//! A pixel buffer holds the image row by row: pixel `(x, y)` is at index
//! `y * width + x`.

use crate::window::{
    box_line, box_mean, lemma_round_div_exact, lemma_span_sum_after, lemma_span_sum_before,
    lemma_span_sum_bounds, lemma_span_sum_single, lemma_span_sum_split, lemma_window_slide,
    lemma_window_sum_bounds, round, round_div, span_sum, window_sum, MAX_RADIUS, MAX_WINDOW,
};
use vstd::arithmetic::div_mod::{
    lemma_fundamental_div_mod, lemma_fundamental_div_mod_converse, lemma_mod_bound,
};
use vstd::prelude::*;

verus! {

/// Channel `c` of an image: one sample for each pixel.
pub open spec fn channel<const C: usize>(pixels: Seq<[u8; C]>, c: int) -> Seq<u8> {
    Seq::new(pixels.len(), |i: int| pixels[i][c])
}

/// Row `y` of a single-channel image.
pub open spec fn row(plane: Seq<u8>, width: int, y: int) -> Seq<u8> {
    Seq::new(width as nat, |x: int| plane[y * width + x])
}

/// Column `x` of a single-channel image.
pub open spec fn column(plane: Seq<u8>, width: int, height: int, x: int) -> Seq<u8> {
    Seq::new(height as nat, |y: int| plane[y * width + x])
}

/// A single-channel image after the box filter of the given radius along each row.
pub open spec fn horz(plane: Seq<u8>, width: int, radius: int) -> Seq<u8> {
    Seq::new(plane.len(), |i: int| box_line(row(plane, width, i / width), radius)[i % width])
}

/// A single-channel image after the box filter of the given radius down each column.
pub open spec fn vert(plane: Seq<u8>, width: int, height: int, radius: int) -> Seq<u8> {
    Seq::new(
        plane.len(),
        |i: int| box_line(column(plane, width, height, i % width), radius)[i / width],
    )
}

/// A single-channel image after one pass: along the rows, then down the columns.
pub open spec fn box_filter(
    plane: Seq<u8>,
    width: int,
    height: int,
    radius_horz: int,
    radius_vert: int,
) -> Seq<u8> {
    vert(horz(plane, width, radius_horz), width, height, radius_vert)
}

/// The index of sample `t` of a line that starts at `start` and advances by `step`.
pub open spec fn offset(start: int, step: int, t: int) -> int {
    start + t * step
}

/// Channel `c` along the line of `len` pixels from `start` in steps of `step`.
pub open spec fn strided<const C: usize>(
    pixels: Seq<[u8; C]>,
    c: int,
    start: int,
    step: int,
    len: int,
) -> Seq<u8> {
    Seq::new(len as nat, |t: int| pixels[offset(start, step, t)][c])
}

proof fn lemma_offset_bounds(start: int, step: int, len: int, t: int)
    requires
        0 <= start,
        1 <= step,
        0 <= t < len,
    ensures
        start <= offset(start, step, t) <= offset(start, step, len - 1),
        0 <= t * step <= (len - 1) * step,
{
    assert(0 <= t * step <= (len - 1) * step) by (nonlinear_arith)
        requires
            0 <= t <= len - 1,
            step >= 1,
    ;
}

proof fn lemma_offset_increasing(start: int, step: int, k: int, t: int)
    requires
        1 <= step,
        k < t,
    ensures
        offset(start, step, k) < offset(start, step, t),
{
    assert(k * step < t * step) by (nonlinear_arith)
        requires
            k < t,
            step >= 1,
    ;
}

/// The pixel at `(x, y)` has index `y * width + x`, and no other cell has.
pub proof fn lemma_cell(width: int, x: int, y: int)
    requires
        0 <= x < width,
    ensures
        (y * width + x) / width == y,
        (y * width + x) % width == x,
{
    lemma_fundamental_div_mod_converse(y * width + x, width, y, x);
}

/// Every index of a `width` by `height` image is that of one cell `(i % width, i / width)`.
pub proof fn lemma_cell_of(i: int, width: int, height: int)
    requires
        0 <= i < width * height,
        0 < width,
    ensures
        0 <= i % width < width,
        0 <= i / width < height,
        i == (i / width) * width + i % width,
{
    lemma_fundamental_div_mod(i, width);
    lemma_mod_bound(i, width);
    let q = i / width;
    assert(width * q == q * width) by (nonlinear_arith);
    assert(0 <= q < height) by (nonlinear_arith)
        requires
            0 <= i < width * height,
            q * width <= i < q * width + width,
            0 < width,
    ;
}

/// A box of radius 0 changes no line.
pub proof fn lemma_box_line_identity(line: Seq<u8>)
    ensures
        box_line(line, 0) == line,
{
    assert forall|t: int| 0 <= t < line.len() implies box_line(line, 0)[t] == line[t] by {
        lemma_span_sum_single(line, t);
        lemma_round_div_exact(line[t] as int, 1);
    }
    assert(box_line(line, 0) =~= line);
}

/// A box of radius 0 along the rows changes no image.
pub proof fn lemma_horz_identity(plane: Seq<u8>, width: int, height: int)
    requires
        0 <= width,
        0 <= height,
        plane.len() == width * height,
    ensures
        horz(plane, width, 0) == plane,
{
    assert forall|i: int| 0 <= i < plane.len() implies horz(plane, width, 0)[i] == plane[i] by {
        lemma_cell_of(i, width, height);
        lemma_box_line_identity(row(plane, width, i / width));
    }
    assert(horz(plane, width, 0) =~= plane);
}

/// A box of radius 0 down the columns changes no image.
pub proof fn lemma_vert_identity(plane: Seq<u8>, width: int, height: int)
    requires
        0 <= width,
        0 <= height,
        plane.len() == width * height,
    ensures
        vert(plane, width, height, 0) == plane,
{
    assert forall|i: int| 0 <= i < plane.len() implies vert(plane, width, height, 0)[i]
        == plane[i] by {
        lemma_cell_of(i, width, height);
        lemma_box_line_identity(column(plane, width, height, i % width));
    }
    assert(vert(plane, width, height, 0) =~= plane);
}

/// Adds `times` copies of a pixel to the running sums, channel by channel.
fn add_scaled<const C: usize>(vals: &mut [u64; C], px: &[u8; C], times: u64)
    requires
        times <= MAX_WINDOW,
        forall|c: int| 0 <= c < C ==> #[trigger] old(vals)[c] <= 255 * MAX_WINDOW,
    ensures
        forall|c: int| 0 <= c < C ==> #[trigger] final(vals)[c] == old(vals)[c] + times * px[c],
{
    let ghost before: Seq<u64> = vals@;
    let mut c: usize = 0;
    while c < C
        invariant
            c <= C,
            times <= MAX_WINDOW,
            before.len() == C,
            forall|k: int| 0 <= k < c ==> #[trigger] vals[k] == before[k] + times * px[k],
            forall|k: int| c <= k < C ==> #[trigger] vals[k] == before[k],
            forall|k: int| 0 <= k < C ==> #[trigger] before[k] <= 255 * MAX_WINDOW,
        decreases C - c,
    {
        assert(times * px[c as int] <= MAX_WINDOW * 255) by (nonlinear_arith)
            requires
                times <= MAX_WINDOW,
                px[c as int] <= 255,
        ;
        vals[c] = vals[c] + times * (px[c] as u64);
        c += 1;
    }
}

/// Moves the running sums one position on: a pixel enters the window, one leaves it.
fn slide<const C: usize>(vals: &mut [u64; C], entering: &[u8; C], leaving: &[u8; C])
    requires
        forall|c: int| 0 <= c < C ==> leaving[c] <= (#[trigger] old(vals)[c]) <= 255 * MAX_WINDOW,
    ensures
        forall|c: int|
            0 <= c < C ==> #[trigger] final(vals)[c] == old(vals)[c] + entering[c] - leaving[c],
{
    let ghost before: Seq<u64> = vals@;
    let mut c: usize = 0;
    while c < C
        invariant
            c <= C,
            before.len() == C,
            forall|k: int| 0 <= k < c ==> #[trigger] vals[k] == before[k] + entering[k] - leaving[k],
            forall|k: int| c <= k < C ==> #[trigger] vals[k] == before[k],
            forall|k: int| 0 <= k < C ==> leaving[k] <= (#[trigger] before[k]) <= 255 * MAX_WINDOW,
        decreases C - c,
    {
        vals[c] = vals[c] + (entering[c] as u64) - (leaving[c] as u64);
        c += 1;
    }
}

/// The pixel of the rounded means of the running sums.
fn emit<const C: usize>(vals: &[u64; C], window: u64) -> (px: [u8; C])
    requires
        1 <= window <= MAX_WINDOW,
        window % 2 == 1,
        forall|c: int| 0 <= c < C ==> #[trigger] vals[c] <= 255 * window,
    ensures
        forall|c: int|
            0 <= c < C ==> #[trigger] px[c] == round_div(vals[c] as int, window as int),
{
    let mut px: [u8; C] = [0u8; C];
    let mut c: usize = 0;
    while c < C
        invariant
            c <= C,
            1 <= window <= MAX_WINDOW,
            window % 2 == 1,
            forall|k: int| 0 <= k < C ==> #[trigger] vals[k] <= 255 * window,
            forall|k: int|
                0 <= k < c ==> #[trigger] px[k] == round_div(vals[k] as int, window as int),
        decreases C - c,
    {
        px[c] = round(vals[c], window);
        c += 1;
    }
    px
}

/// Copies an image.
fn copy_pixels<const C: usize>(src: &[[u8; C]], dst: &mut [[u8; C]])
    requires
        src.len() == old(dst).len(),
    ensures
        final(dst)@ == src@,
{
    let mut i: usize = 0;
    while i < src.len()
        invariant
            i <= src.len(),
            src.len() == dst.len(),
            forall|k: int| 0 <= k < i ==> dst@[k] == src@[k],
        decreases src.len() - i,
    {
        dst[i] = src[i];
        i += 1;
    }
    assert(dst@ =~= src@);
}

/// Filters one line of `src` into the same line of `dst`. The running sums
/// start as the window one position before the line and then slide along it.
fn blur_line<const C: usize>(
    src: &[[u8; C]],
    dst: &mut [[u8; C]],
    start: usize,
    step: usize,
    len: usize,
    radius: usize,
)
    requires
        1 <= len,
        1 <= step,
        1 <= radius <= MAX_RADIUS,
        src.len() == old(dst).len(),
        offset(start as int, step as int, len - 1) < src.len(),
    ensures
        final(dst).len() == old(dst).len(),
        forall|t: int, c: int|
            0 <= t < len && 0 <= c < C ==> (#[trigger] final(dst)@[offset(
                start as int,
                step as int,
                t,
            )][c]) == box_mean(
                strided(src@, c, start as int, step as int, len as int),
                t,
                radius as int,
            ),
        forall|i: int|
            0 <= i < final(dst).len() && (forall|t: int|
                0 <= t < len ==> i != #[trigger] offset(start as int, step as int, t))
                ==> final(dst)@[i] == old(dst)@[i],
{
    let ghost before: Seq<[u8; C]> = dst@;
    let ghost s: int = start as int;
    let ghost st: int = step as int;
    let ghost n: int = len as int;
    let ghost r: int = radius as int;
    let window: u64 = 2 * (radius as u64) + 1;
    proof {
        lemma_offset_bounds(s, st, n, 0);
        lemma_offset_bounds(s, st, n, n - 1);
    }
    let last_at: usize = start + (len - 1) * step;
    let first: [u8; C] = src[start];
    let last: [u8; C] = src[last_at];
    let mut vals: [u64; C] = [0u64; C];
    add_scaled(&mut vals, &first, radius as u64 + 1);
    assert forall|c: int| 0 <= c < C implies #[trigger] vals[c] == span_sum(
        strided(src@, c, s, st, n),
        -r - 1,
        0,
    ) by {
        let line = strided(src@, c, s, st, n);
        lemma_span_sum_before(line, -r - 1, 0);
        assert(line[0] == first[c]);
    }

    let head: usize = if radius < len {
        radius
    } else {
        len
    };
    let mut j: usize = 0;
    while j < head
        invariant
            j <= head <= len,
            head <= radius <= MAX_RADIUS,
            s == start && st == step && n == len && r == radius,
            0 <= s && 1 <= st,
            offset(s, st, n - 1) < src.len(),
            forall|c: int|
                0 <= c < C ==> #[trigger] vals[c] == span_sum(
                    strided(src@, c, s, st, n),
                    -r - 1,
                    j as int,
                ),
        decreases head - j,
    {
        proof {
            lemma_offset_bounds(s, st, n, j as int);
            assert forall|c: int| 0 <= c < C implies #[trigger] vals[c] <= 255 * MAX_WINDOW by {
                lemma_span_sum_bounds(strided(src@, c, s, st, n), -r - 1, j as int);
            }
        }
        let ghost sums: Seq<u64> = vals@;
        let px: &[u8; C] = &src[start + j * step];
        add_scaled(&mut vals, px, 1);
        proof {
            assert forall|c: int| 0 <= c < C implies #[trigger] vals[c] == span_sum(
                strided(src@, c, s, st, n),
                -r - 1,
                j + 1,
            ) by {
                let line = strided(src@, c, s, st, n);
                assert(line[j as int] == px[c]);
                assert(vals[c] == sums[c] + 1 * px[c]);
            }
        }
        j += 1;
    }
    let ghost seeded: Seq<u64> = vals@;
    if radius > len {
        proof {
            assert forall|c: int| 0 <= c < C implies #[trigger] vals[c] <= 255 * MAX_WINDOW by {
                lemma_span_sum_bounds(strided(src@, c, s, st, n), -r - 1, n);
            }
        }
        add_scaled(&mut vals, &last, (radius - len) as u64);
    }
    assert forall|c: int| 0 <= c < C implies #[trigger] vals[c] == window_sum(
        strided(src@, c, s, st, n),
        -1,
        r,
    ) by {
        let line = strided(src@, c, s, st, n);
        if r > n {
            lemma_span_sum_after(line, n, r);
            lemma_span_sum_split(line, -r - 1, n, r);
            assert(line[n - 1] == last[c]);
            assert(vals[c] == seeded[c] + (r - n) * last[c]);
        } else {
            assert(vals[c] == seeded[c]);
        }
    }

    let mut t: usize = 0;
    while t < len
        invariant
            t <= len,
            1 <= radius <= MAX_RADIUS,
            window == 2 * radius + 1,
            s == start && st == step && n == len && r == radius,
            0 <= s && 1 <= st,
            src.len() == dst.len(),
            dst.len() == before.len(),
            offset(s, st, n - 1) < src.len(),
            forall|c: int|
                0 <= c < C ==> #[trigger] vals[c] == window_sum(
                    strided(src@, c, s, st, n),
                    t - 1,
                    r,
                ),
            forall|k: int, c: int|
                0 <= k < t && 0 <= c < C ==> (#[trigger] dst@[offset(s, st, k)][c]) == box_mean(
                    strided(src@, c, s, st, n),
                    k,
                    r,
                ),
            forall|i: int|
                0 <= i < dst.len() && (forall|k: int| 0 <= k < n ==> i != #[trigger] offset(
                    s,
                    st,
                    k,
                )) ==> dst@[i] == before[i],
        decreases len - t,
    {
        let enter: usize = if radius < len - t {
            t + radius
        } else {
            len - 1
        };
        let leave: usize = if t > radius {
            t - radius - 1
        } else {
            0
        };
        proof {
            lemma_offset_bounds(s, st, n, enter as int);
            lemma_offset_bounds(s, st, n, leave as int);
            lemma_offset_bounds(s, st, n, t as int);
        }
        let entering: &[u8; C] = &src[start + enter * step];
        let leaving: &[u8; C] = &src[start + leave * step];
        proof {
            assert forall|c: int| 0 <= c < C implies leaving[c] <= (#[trigger] vals[c]) <= 255
                * MAX_WINDOW && vals[c] + entering[c] - leaving[c] == window_sum(
                strided(src@, c, s, st, n),
                t as int,
                r,
            ) by {
                let line = strided(src@, c, s, st, n);
                lemma_window_slide(line, t - 1, r);
                lemma_window_sum_bounds(line, t - 1, r);
                lemma_span_sum_split(line, t - 1 - r, t - r, t + r);
                lemma_span_sum_single(line, t - 1 - r);
                lemma_span_sum_bounds(line, t - r, t + r);
                assert(line[enter as int] == entering[c]);
                assert(line[leave as int] == leaving[c]);
            }
        }
        let ghost sums: Seq<u64> = vals@;
        slide(&mut vals, entering, leaving);
        proof {
            assert forall|c: int| 0 <= c < C implies (#[trigger] vals[c]) <= 255 * window
                && vals[c] == window_sum(strided(src@, c, s, st, n), t as int, r) by {
                lemma_window_sum_bounds(strided(src@, c, s, st, n), t as int, r);
                assert(vals[c] == sums[c] + entering[c] - leaving[c]);
            }
        }
        let px: [u8; C] = emit(&vals, window);
        let ghost prev: Seq<[u8; C]> = dst@;
        dst[start + t * step] = px;
        proof {
            let at = offset(s, st, t as int);
            assert(dst@ == prev.update(at, px));
            assert forall|k: int, c: int| 0 <= k < t + 1 && 0 <= c < C implies (
            #[trigger] dst@[offset(s, st, k)][c]) == box_mean(
                strided(src@, c, s, st, n),
                k,
                r,
            ) by {
                if k < t {
                    lemma_offset_increasing(s, st, k, t as int);
                    lemma_offset_bounds(s, st, n, k);
                    assert(dst@[offset(s, st, k)] == prev[offset(s, st, k)]);
                    assert(prev[offset(s, st, k)][c] == box_mean(
                        strided(src@, c, s, st, n),
                        k,
                        r,
                    ));
                }
            }
        }
        t += 1;
    }
}

/// Filters every row of `src` into `dst`, each channel on its own, with the
/// row's end pixels repeated beyond its ends.
pub fn box_blur_horz<const C: usize>(
    src: &[[u8; C]],
    dst: &mut [[u8; C]],
    width: usize,
    height: usize,
    blur_radius: usize,
)
    requires
        src.len() == width * height,
        old(dst).len() == src.len(),
        blur_radius <= MAX_RADIUS,
    ensures
        final(dst).len() == old(dst).len(),
        forall|c: int|
            0 <= c < C ==> #[trigger] channel(final(dst)@, c) == horz(
                channel(src@, c),
                width as int,
                blur_radius as int,
            ),
{
    let ghost w: int = width as int;
    let ghost h: int = height as int;
    let ghost r: int = blur_radius as int;
    if blur_radius == 0 {
        copy_pixels(src, dst);
        proof {
            assert forall|c: int| 0 <= c < C implies #[trigger] channel(dst@, c) == horz(
                channel(src@, c),
                w,
                r,
            ) by {
                lemma_horz_identity(channel(src@, c), w, h);
            }
        }
        return ;
    }
    if width == 0 {
        assert forall|c: int| 0 <= c < C implies #[trigger] channel(dst@, c) == horz(
            channel(src@, c),
            w,
            r,
        ) by {
            assert(channel(dst@, c) =~= horz(channel(src@, c), w, r));
        }
        return ;
    }
    let mut y: usize = 0;
    while y < height
        invariant
            y <= height,
            0 < width,
            w == width && h == height && r == blur_radius,
            1 <= blur_radius <= MAX_RADIUS,
            src.len() == width * height,
            dst.len() == src.len(),
            forall|i: int, c: int|
                0 <= i < y * w && 0 <= c < C ==> (#[trigger] channel(dst@, c)[i]) == horz(
                    channel(src@, c),
                    w,
                    r,
                )[i],
        decreases height - y,
    {
        proof {
            assert(y * w + w <= w * h) by (nonlinear_arith)
                requires
                    0 <= y < h,
                    0 < w,
            ;
            assert(0 <= y * w) by (nonlinear_arith)
                requires
                    0 <= y,
                    0 < w,
            ;
            assert(offset(y * w, 1, w - 1) == y * w + w - 1);
        }
        let ghost prev: Seq<[u8; C]> = dst@;
        blur_line(src, dst, y * width, 1, width, blur_radius);
        proof {
            let s = y * w;
            assert forall|i: int, c: int| 0 <= i < (y + 1) * w && 0 <= c < C implies (
            #[trigger] channel(dst@, c)[i]) == horz(channel(src@, c), w, r)[i] by {
                assert((y + 1) * w == y * w + w) by (nonlinear_arith);
                if i < s {
                    assert forall|k: int| 0 <= k < w implies i != #[trigger] offset(s, 1, k) by {}
                    assert(dst@[i] == prev[i]);
                    assert(channel(prev, c)[i] == horz(channel(src@, c), w, r)[i]);
                } else {
                    let x = i - s;
                    assert(offset(s, 1, x) == i);
                    lemma_cell(w, x, y as int);
                    let line = strided(src@, c, s, 1, w);
                    assert(dst@[offset(s, 1, x)][c] == box_mean(line, x, r));
                    assert(line =~= row(channel(src@, c), w, y as int));
                }
            }
        }
        y += 1;
    }
    proof {
        assert forall|c: int| 0 <= c < C implies #[trigger] channel(dst@, c) == horz(
            channel(src@, c),
            w,
            r,
        ) by {
            assert(channel(dst@, c) =~= horz(channel(src@, c), w, r));
        }
    }
}

/// Filters every column of `src` into `dst`, each channel on its own, with
/// the column's end pixels repeated beyond its ends.
pub fn box_blur_vert<const C: usize>(
    src: &[[u8; C]],
    dst: &mut [[u8; C]],
    width: usize,
    height: usize,
    blur_radius: usize,
)
    requires
        src.len() == width * height,
        old(dst).len() == src.len(),
        blur_radius <= MAX_RADIUS,
    ensures
        final(dst).len() == old(dst).len(),
        forall|c: int|
            0 <= c < C ==> #[trigger] channel(final(dst)@, c) == vert(
                channel(src@, c),
                width as int,
                height as int,
                blur_radius as int,
            ),
{
    let ghost w: int = width as int;
    let ghost h: int = height as int;
    let ghost r: int = blur_radius as int;
    if blur_radius == 0 {
        copy_pixels(src, dst);
        proof {
            assert forall|c: int| 0 <= c < C implies #[trigger] channel(dst@, c) == vert(
                channel(src@, c),
                w,
                h,
                r,
            ) by {
                lemma_vert_identity(channel(src@, c), w, h);
            }
        }
        return ;
    }
    if height == 0 {
        assert(w * h == 0) by (nonlinear_arith)
            requires
                h == 0,
        ;
        assert forall|c: int| 0 <= c < C implies #[trigger] channel(dst@, c) == vert(
            channel(src@, c),
            w,
            h,
            r,
        ) by {
            assert(channel(dst@, c) =~= vert(channel(src@, c), w, h, r));
        }
        return ;
    }
    let mut x: usize = 0;
    while x < width
        invariant
            x <= width,
            0 < height,
            w == width && h == height && r == blur_radius,
            1 <= blur_radius <= MAX_RADIUS,
            src.len() == width * height,
            dst.len() == src.len(),
            forall|i: int, c: int|
                0 <= i < w * h && i % w < x && 0 <= c < C ==> (#[trigger] channel(dst@, c)[i])
                    == vert(channel(src@, c), w, h, r)[i],
        decreases width - x,
    {
        proof {
            assert(x + (h - 1) * w < w * h) by (nonlinear_arith)
                requires
                    0 <= x < w,
                    0 < h,
            ;
        }
        let ghost prev: Seq<[u8; C]> = dst@;
        blur_line(src, dst, x, width, height, blur_radius);
        proof {
            assert forall|i: int, c: int|
                0 <= i < w * h && i % w < x + 1 && 0 <= c < C implies (#[trigger] channel(
                dst@,
                c,
            )[i]) == vert(channel(src@, c), w, h, r)[i] by {
                lemma_cell_of(i, w, h);
                if i % w < x {
                    assert forall|k: int| 0 <= k < h implies i != #[trigger] offset(
                        x as int,
                        w,
                        k,
                    ) by {
                        lemma_cell(w, x as int, k);
                    }
                    assert(dst@[i] == prev[i]);
                    assert(channel(prev, c)[i] == vert(channel(src@, c), w, h, r)[i]);
                } else {
                    let y = i / w;
                    assert(offset(x as int, w, y) == i);
                    let line = strided(src@, c, x as int, w, h);
                    assert(dst@[offset(x as int, w, y)][c] == box_mean(line, y, r));
                    assert forall|k: int| 0 <= k < h implies line[k] == column(
                        channel(src@, c),
                        w,
                        h,
                        x as int,
                    )[k] by {
                        assert(0 <= k * w + x < w * h) by (nonlinear_arith)
                            requires
                                0 <= k < h,
                                0 <= x < w,
                        ;
                    }
                    assert(line =~= column(channel(src@, c), w, h, x as int));
                }
            }
        }
        x += 1;
    }
    proof {
        assert forall|c: int| 0 <= c < C implies #[trigger] channel(dst@, c) == vert(
            channel(src@, c),
            w,
            h,
            r,
        ) by {
            assert forall|i: int| 0 <= i < w * h implies channel(dst@, c)[i] == vert(
                channel(src@, c),
                w,
                h,
                r,
            )[i] by {
                lemma_cell_of(i, w, h);
            }
            assert(channel(dst@, c) =~= vert(channel(src@, c), w, h, r));
        }
    }
}

/// One pass over the image in `frontbuf`: its rows are filtered into
/// `backbuf`, and the columns of that are filtered back into `frontbuf`.
pub fn box_blur<const C: usize>(
    backbuf: &mut [[u8; C]],
    frontbuf: &mut [[u8; C]],
    width: usize,
    height: usize,
    blur_radius_horz: usize,
    blur_radius_vert: usize,
)
    requires
        old(frontbuf).len() == width * height,
        old(backbuf).len() == old(frontbuf).len(),
        blur_radius_horz <= MAX_RADIUS,
        blur_radius_vert <= MAX_RADIUS,
    ensures
        final(frontbuf).len() == old(frontbuf).len(),
        final(backbuf).len() == old(backbuf).len(),
        forall|c: int|
            0 <= c < C ==> #[trigger] channel(final(backbuf)@, c) == horz(
                channel(old(frontbuf)@, c),
                width as int,
                blur_radius_horz as int,
            ),
        forall|c: int|
            0 <= c < C ==> #[trigger] channel(final(frontbuf)@, c) == box_filter(
                channel(old(frontbuf)@, c),
                width as int,
                height as int,
                blur_radius_horz as int,
                blur_radius_vert as int,
            ),
{
    box_blur_horz(frontbuf, backbuf, width, height, blur_radius_horz);
    box_blur_vert(backbuf, frontbuf, width, height, blur_radius_vert);
}

} // verus!
