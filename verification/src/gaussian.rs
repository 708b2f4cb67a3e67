//! The blur itself: one box-filter pass for each planned width, each pass
//! reading the result of the one before.

use crate::pass::{
    box_blur, box_filter, channel, column, horz, lemma_cell_of, lemma_horz_identity,
    lemma_vert_identity, row, vert,
};
use crate::plan::{box_widths, create_box_gauss, lemma_box_widths_zero};
use crate::radius::{BlurError, BlurRadius};
use crate::window::{box_line, lemma_round_div_exact, span_sum};
use vstd::prelude::*;
use vstd::slice::slice_to_vec;

verus! {

/// The radius of a box of the given odd width.
pub open spec fn radius_of(box_width: int) -> int {
    (box_width - 1) / 2
}

/// A single-channel image after one pass for each width, in their order.
pub open spec fn blur_plane(plane: Seq<u8>, width: int, height: int, widths: Seq<int>) -> Seq<u8>
    decreases widths.len(),
{
    if widths.len() == 0 {
        plane
    } else {
        let r = radius_of(widths.last());
        box_filter(blur_plane(plane, width, height, widths.drop_last()), width, height, r, r)
    }
}

/// `after` is `before` blurred with the given box widths: of every channel,
/// the passes see that channel alone.
pub open spec fn blurred<const C: usize>(
    before: Seq<[u8; C]>,
    after: Seq<[u8; C]>,
    width: int,
    height: int,
    widths: Seq<int>,
) -> bool {
    &&& after.len() == before.len()
    &&& forall|c: int|
        0 <= c < C ==> #[trigger] channel(after, c) == blur_plane(
            channel(before, c),
            width,
            height,
            widths,
        )
}

/// Images of as many pixels that agree in every channel are the same image.
pub proof fn lemma_channels_determine<const C: usize>(a: Seq<[u8; C]>, b: Seq<[u8; C]>)
    requires
        a.len() == b.len(),
        forall|c: int| 0 <= c < C ==> #[trigger] channel(a, c) == channel(b, c),
    ensures
        a == b,
{
    assert forall|i: int| 0 <= i < a.len() implies a[i] == b[i] by {
        assert forall|c: int| 0 <= c < C implies a[i][c] == b[i][c] by {
            assert(channel(a, c)[i] == channel(b, c)[i]);
        }
        assert(a[i] =~= b[i]);
    }
    assert(a =~= b);
}

/// A blur has one result: whatever two runs on the same image with the same
/// widths leave behind is the same.
pub proof fn lemma_blurred_deterministic<const C: usize>(
    before: Seq<[u8; C]>,
    first: Seq<[u8; C]>,
    second: Seq<[u8; C]>,
    width: int,
    height: int,
    widths: Seq<int>,
)
    requires
        blurred(before, first, width, height, widths),
        blurred(before, second, width, height, widths),
    ensures
        first == second,
{
    lemma_channels_determine(first, second);
}

/// A channel is blurred as if it were an image of its own: where channel
/// `k` of an image of `C` channels holds what the one channel of another
/// image holds, it does so again after both are blurred with the same widths.
pub proof fn lemma_channel_independence<const C: usize>(
    before: Seq<[u8; C]>,
    after: Seq<[u8; C]>,
    single_before: Seq<[u8; 1]>,
    single_after: Seq<[u8; 1]>,
    k: int,
    width: int,
    height: int,
    widths: Seq<int>,
)
    requires
        0 <= k < C,
        blurred(before, after, width, height, widths),
        blurred(single_before, single_after, width, height, widths),
        channel(before, k) == channel(single_before, 0),
    ensures
        channel(after, k) == channel(single_after, 0),
{
}

/// Boxes of width 1 change nothing.
pub proof fn lemma_blur_plane_identity(plane: Seq<u8>, width: int, height: int, widths: Seq<int>)
    requires
        0 <= width,
        0 <= height,
        plane.len() == width * height,
        forall|i: int| 0 <= i < widths.len() ==> widths[i] == 1,
    ensures
        blur_plane(plane, width, height, widths) == plane,
    decreases widths.len(),
{
    if widths.len() > 0 {
        lemma_blur_plane_identity(plane, width, height, widths.drop_last());
        lemma_horz_identity(plane, width, height);
        lemma_vert_identity(plane, width, height);
    }
}

/// A blur of radius zero leaves every image as it is.
pub proof fn lemma_blurred_zero<const C: usize>(
    before: Seq<[u8; C]>,
    after: Seq<[u8; C]>,
    width: int,
    height: int,
    den: int,
)
    requires
        0 <= width,
        0 <= height,
        before.len() == width * height,
        blurred(before, after, width, height, box_widths(0, den, C as int)),
    ensures
        after == before,
{
    lemma_box_widths_zero(den, C as int);
    assert forall|c: int| 0 <= c < C implies #[trigger] channel(after, c) == channel(
        before,
        c,
    ) by {
        lemma_blur_plane_identity(channel(before, c), width, height, box_widths(0, den, C as int));
    }
    lemma_channels_determine(after, before);
}

/// Every sample of the line is `value`.
pub open spec fn uniform(line: Seq<u8>, value: u8) -> bool {
    forall|i: int| 0 <= i < line.len() ==> line[i] == value
}

/// A span over a line of one value sums to that value times its length.
pub proof fn lemma_span_sum_uniform(line: Seq<u8>, value: u8, lo: int, hi: int)
    requires
        line.len() > 0,
        uniform(line, value),
        lo <= hi,
    ensures
        span_sum(line, lo, hi) == (hi - lo) * value,
    decreases hi - lo,
{
    if lo < hi {
        lemma_span_sum_uniform(line, value, lo, hi - 1);
        assert((hi - lo) * value == (hi - 1 - lo) * value + value) by (nonlinear_arith);
    } else {
        assert((hi - lo) * value == 0) by (nonlinear_arith)
            requires
                hi == lo,
        ;
    }
}

/// A box filter of any radius leaves a line of one value as it is.
pub proof fn lemma_box_line_uniform(line: Seq<u8>, value: u8, radius: int)
    requires
        uniform(line, value),
        0 <= radius,
    ensures
        box_line(line, radius) == line,
{
    assert forall|t: int| 0 <= t < line.len() implies box_line(line, radius)[t] == line[t] by {
        lemma_span_sum_uniform(line, value, t - radius, t + radius + 1);
        lemma_round_div_exact(value as int, 2 * radius + 1);
    }
    assert(box_line(line, radius) =~= line);
}

/// One pass of any radii leaves an image of one value as it is.
pub proof fn lemma_box_filter_uniform(
    plane: Seq<u8>,
    width: int,
    height: int,
    value: u8,
    radius_horz: int,
    radius_vert: int,
)
    requires
        0 <= width,
        0 <= height,
        plane.len() == width * height,
        uniform(plane, value),
        0 <= radius_horz,
        0 <= radius_vert,
    ensures
        box_filter(plane, width, height, radius_horz, radius_vert) == plane,
{
    assert forall|i: int| 0 <= i < plane.len() implies horz(plane, width, radius_horz)[i]
        == plane[i] by {
        lemma_cell_of(i, width, height);
        let y = i / width;
        let line = row(plane, width, y);
        assert forall|x: int| 0 <= x < line.len() implies line[x] == value by {
            assert(0 <= y * width + x < width * height) by (nonlinear_arith)
                requires
                    0 <= y < height,
                    0 <= x < width,
            ;
        }
        lemma_box_line_uniform(line, value, radius_horz);
    }
    assert(horz(plane, width, radius_horz) =~= plane);
    assert forall|i: int| 0 <= i < plane.len() implies vert(plane, width, height, radius_vert)[i]
        == plane[i] by {
        lemma_cell_of(i, width, height);
        let x = i % width;
        let line = column(plane, width, height, x);
        assert forall|y: int| 0 <= y < line.len() implies line[y] == value by {
            assert(0 <= y * width + x < width * height) by (nonlinear_arith)
                requires
                    0 <= y < height,
                    0 <= x < width,
            ;
        }
        lemma_box_line_uniform(line, value, radius_vert);
    }
    assert(vert(plane, width, height, radius_vert) =~= plane);
}

/// A blur with any box widths leaves an image of one value as it is: the
/// repeated edge samples are that value too, so nothing bleeds in.
pub proof fn lemma_blur_plane_uniform(
    plane: Seq<u8>,
    width: int,
    height: int,
    value: u8,
    widths: Seq<int>,
)
    requires
        0 <= width,
        0 <= height,
        plane.len() == width * height,
        uniform(plane, value),
        forall|i: int| 0 <= i < widths.len() ==> widths[i] >= 1,
    ensures
        blur_plane(plane, width, height, widths) == plane,
    decreases widths.len(),
{
    if widths.len() > 0 {
        lemma_blur_plane_uniform(plane, width, height, value, widths.drop_last());
        let r = radius_of(widths.last());
        lemma_box_filter_uniform(plane, width, height, value, r, r);
    }
}

/// An image whose pixels are all the same colour is that image again after a blur.
pub proof fn lemma_blurred_uniform<const C: usize>(
    before: Seq<[u8; C]>,
    after: Seq<[u8; C]>,
    colour: [u8; C],
    width: int,
    height: int,
    widths: Seq<int>,
)
    requires
        0 <= width,
        0 <= height,
        before.len() == width * height,
        forall|i: int| 0 <= i < before.len() ==> before[i] == colour,
        forall|i: int| 0 <= i < widths.len() ==> widths[i] >= 1,
        blurred(before, after, width, height, widths),
    ensures
        after == before,
{
    assert forall|c: int| 0 <= c < C implies #[trigger] channel(after, c) == channel(
        before,
        c,
    ) by {
        lemma_blur_plane_uniform(channel(before, c), width, height, colour[c], widths);
    }
    lemma_channels_determine(after, before);
}

/// The box widths of a plan, as integers.
pub open spec fn widths_of(plan: Seq<i32>) -> Seq<int> {
    Seq::new(plan.len(), |i: int| plan[i] as int)
}

/// Runs the passes of a plan over an image of `width * height` pixels, in
/// place: for each box width one pass of that box's radius, along the rows
/// and down the columns, each pass on the result of the one before. The
/// passes share one scratch image of the same size.
pub fn run<const C: usize>(buffer: &mut [[u8; C]], width: usize, height: usize, plan: &[i32])
    requires
        old(buffer).len() == width * height,
        forall|i: int| 0 <= i < plan.len() ==> #[trigger] plan[i] >= 1 && plan[i] % 2 == 1,
    ensures
        blurred(old(buffer)@, final(buffer)@, width as int, height as int, widths_of(plan@)),
{
    let ghost w: int = width as int;
    let ghost h: int = height as int;
    let ghost before: Seq<[u8; C]> = buffer@;
    let ghost widths: Seq<int> = widths_of(plan@);
    let mut backbuf: Vec<[u8; C]> = slice_to_vec(buffer);
    let mut k: usize = 0;
    while k < plan.len()
        invariant
            k <= plan.len(),
            widths == widths_of(plan@),
            w == width && h == height,
            buffer.len() == width * height,
            buffer.len() == before.len(),
            backbuf.len() == buffer.len(),
            forall|i: int| 0 <= i < plan.len() ==> #[trigger] plan[i] >= 1 && plan[i] % 2 == 1,
            forall|c: int|
                0 <= c < C ==> #[trigger] channel(buffer@, c) == blur_plane(
                    channel(before, c),
                    w,
                    h,
                    widths.take(k as int),
                ),
        decreases plan.len() - k,
    {
        let box_size: i32 = plan[k];
        let radius: usize = ((box_size - 1) / 2) as usize;
        let ghost prev: Seq<[u8; C]> = buffer@;
        box_blur(backbuf.as_mut_slice(), buffer, width, height, radius, radius);
        proof {
            let done = widths.take(k + 1);
            assert(done.drop_last() =~= widths.take(k as int));
            assert(done.last() == plan[k as int]);
            assert forall|c: int| 0 <= c < C implies #[trigger] channel(buffer@, c) == blur_plane(
                channel(before, c),
                w,
                h,
                done,
            ) by {
                assert(channel(prev, c) == blur_plane(
                    channel(before, c),
                    w,
                    h,
                    widths.take(k as int),
                ));
            }
        }
        k += 1;
    }
    proof {
        assert(widths.take(plan.len() as int) =~= widths);
    }
}

/// Blurs an image of `width * height` pixels in place, by the passes that
/// `create_box_gauss` plans for as many passes as the pixels have channels.
/// An image of another size is refused and left as it is.
pub fn gaussian_blur<const CHANNELS: usize>(
    data: &mut [[u8; CHANNELS]],
    width: usize,
    height: usize,
    blur_radius: BlurRadius,
) -> (r: Result<(), BlurError>)
    ensures
        final(data).len() == old(data).len(),
        match r {
            Ok(()) => {
                &&& old(data).len() == width * height
                &&& blurred(
                    old(data)@,
                    final(data)@,
                    width as int,
                    height as int,
                    box_widths(blur_radius.num(), blur_radius.den(), CHANNELS as int),
                )
            },
            Err(e) => {
                &&& e == BlurError::LengthMismatch
                &&& old(data).len() != width * height
                &&& final(data)@ == old(data)@
            },
        },
        blur_radius.num() == 0 ==> final(data)@ == old(data)@,
{
    let fits: bool = match width.checked_mul(height) {
        Some(pixels) => pixels == data.len(),
        None => false,
    };
    if !fits {
        return Err(BlurError::LengthMismatch);
    }
    let ghost before: Seq<[u8; CHANNELS]> = data@;
    let boxes: [i32; CHANNELS] = create_box_gauss::<CHANNELS>(blur_radius);
    run(data, width, height, boxes.as_slice());
    proof {
        let widths = box_widths(blur_radius.num(), blur_radius.den(), CHANNELS as int);
        assert(widths_of(boxes@) =~= widths);
        if blur_radius.num() == 0 {
            lemma_blurred_zero(before, data@, width as int, height as int, blur_radius.den());
        }
    }
    Ok(())
}

} // verus!
