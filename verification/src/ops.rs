use vstd::prelude::*;

use crate::border::Border;
use crate::kernel::{Taps, TAPS};
use crate::plane::{cell, Plane, PlaneView};
use crate::rows::{
    axis_ok, axis_taps, blends, bordered_taps, filtered_at, inside, interior,
    lemma_close_rows_have_their_own_slots, lemma_taps_are_close, lemma_taps_are_kernel_taps,
    side_fits, total, FilteredRows, deterministic, lemma_blends_is_determined, samples_at,
    taps_upto,
};
use crate::strips::rows_per_strip;

verus! {

/// `n` halved, rounding up.
pub open spec fn halved(n: int) -> int {
    (n + 1) / 2
}

/// Halving rounds up: twice the half covers `n` and overshoots it by at most
/// one, so it is `n.div_ceil(2)`.
pub proof fn lemma_halving_rounds_up(n: int)
    requires
        0 <= n,
    ensures
        n <= 2 * halved(n) <= n + 1,
{
}

/// The taps of one column, each weight paired with the value it weighs.
pub open spec fn weighted<T>(rows: Seq<(u32, usize)>, values: Seq<T>) -> Seq<(u32, T)> {
    Seq::new(rows.len(), |k: int| (rows[k].0, values[k]))
}

/// `v` is column `x` blended down the source rows `rows`: each of those rows
/// is first filtered along its length at `x`, and the filtered values are then
/// blended with the rows' weights.
pub open spec fn blended_from<T, F: Fn(u32, Vec<(u32, T)>) -> T>(
    src: PlaneView<T>,
    pass: Taps,
    border: Border,
    blend: F,
    rows: Seq<(u32, usize)>,
    x: int,
    v: T,
) -> bool {
    exists|values: Seq<T>|
        {
            &&& values.len() == rows.len()
            &&& forall|k: int|
                0 <= k < rows.len() ==> filtered_at(
                    src,
                    pass,
                    border,
                    blend,
                    rows[k].1 as int,
                    x,
                    #[trigger] values[k],
                )
            &&& #[trigger] blends(blend, pass.spec_gain(), weighted(rows, values), v)
        }
}

/// `v` is the sample `pass` puts at `(x, y)` from `src`: the separable kernel,
/// along the rows then down the columns, with borders resolved by `border`.
pub open spec fn resampled_at<T, F: Fn(u32, Vec<(u32, T)>) -> T>(
    src: PlaneView<T>,
    pass: Taps,
    border: Border,
    blend: F,
    x: int,
    y: int,
    v: T,
) -> bool {
    blended_from(
        src,
        pass,
        border,
        blend,
        axis_taps(pass, src.height as int, border, y),
        x,
        v,
    )
}

/// `dst` is `src` carried through `pass`, sample by sample.
pub open spec fn resampled<T, F: Fn(u32, Vec<(u32, T)>) -> T>(
    src: PlaneView<T>,
    pass: Taps,
    border: Border,
    blend: F,
    dst: PlaneView<T>,
) -> bool {
    &&& dst.wf()
    &&& forall|x: int, y: int|
        0 <= x < dst.width && 0 <= y < dst.height ==> resampled_at(
            src,
            pass,
            border,
            blend,
            x,
            y,
            #[trigger] dst.at(x, y),
        )
}

/// Blends, column by column, the filtered rows `rows` that the window holds.
fn blend_rows<T: Copy, F: Fn(u32, Vec<(u32, T)>) -> T>(
    window: &FilteredRows<T>,
    rows: &Vec<(u32, usize)>,
    src: &Plane<T>,
    pass: Taps,
    border: Border,
    blend: &F,
) -> (destination: Vec<T>)
    requires
        window.valid(src@, pass, border, *blend),
        forall|k: int| 0 <= k < rows@.len() ==> window.holds_row((#[trigger] rows@[k]).1 as int),
        total(*blend),
    ensures
        destination@.len() == window.width,
        forall|x: int|
            0 <= x < window.width ==> blended_from(
                src@,
                pass,
                border,
                *blend,
                rows@,
                x,
                #[trigger] destination@[x],
            ),
{
    let gain = pass.gain();
    let width = window.width;
    let mut destination: Vec<T> = Vec::new();
    let mut x: usize = 0;
    while x < width
        invariant
            x <= width,
            width == window.width,
            gain == pass.spec_gain(),
            window.valid(src@, pass, border, *blend),
            forall|k: int|
                0 <= k < rows@.len() ==> window.holds_row((#[trigger] rows@[k]).1 as int),
            total(*blend),
            destination@.len() == x,
            forall|j: int|
                0 <= j < x ==> blended_from(
                    src@,
                    pass,
                    border,
                    *blend,
                    rows@,
                    j,
                    #[trigger] destination@[j],
                ),
        decreases width - x,
    {
        let mut taps: Vec<(u32, T)> = Vec::new();
        let mut k: usize = 0;
        while k < rows.len()
            invariant
                k <= rows@.len(),
                x < width,
                width == window.width,
                window.valid(src@, pass, border, *blend),
                forall|j: int|
                    0 <= j < rows@.len() ==> window.holds_row((#[trigger] rows@[j]).1 as int),
                taps@.len() == k,
                forall|j: int|
                    0 <= j < k ==> (#[trigger] taps@[j]).0 == rows@[j].0 && filtered_at(
                        src@,
                        pass,
                        border,
                        *blend,
                        rows@[j].1 as int,
                        x as int,
                        taps@[j].1,
                    ),
            decreases rows@.len() - k,
        {
            let (w, source_row) = rows[k];
            assert(window.holds_row(rows@[k as int].1 as int));
            let filtered = window.row(source_row);
            let ghost slot = source_row as int % (TAPS as int);
            assert(window.holds@[slot] == Some(source_row));
            assert(filtered@.len() == width);
            taps.push((w, filtered[x]));
            k = k + 1;
        }
        let ghost given = taps;
        let ghost values = Seq::new(taps@.len(), |j: int| taps@[j].1);
        let value = blend(gain, taps);
        proof {
            assert(given@ =~= crate::ops::weighted(rows@, values));
            assert(call_ensures(*blend, (gain, given), value));
            assert(blends(*blend, pass.spec_gain(), weighted(rows@, values), value));
            assert(forall|j: int|
                0 <= j < rows@.len() ==> filtered_at(
                    src@,
                    pass,
                    border,
                    *blend,
                    rows@[j].1 as int,
                    x as int,
                    #[trigger] values[j],
                ));
        }
        destination.push(value);
        x = x + 1;
    }
    destination
}

/// Rows laid end to end keep their places: the rows of `a` stay where they
/// were, and row `i` of `b` becomes row `rows_a + i`.
pub proof fn lemma_cell_of_concat<T>(a: Seq<T>, b: Seq<T>, width: int, rows_a: int)
    requires
        0 <= width,
        0 <= rows_a,
        a.len() == rows_a * width,
    ensures
        forall|x: int, y: int|
            0 <= x < width && 0 <= y < rows_a ==> #[trigger] cell(a + b, width, x, y) == cell(
                a,
                width,
                x,
                y,
            ),
        forall|x: int, i: int|
            0 <= x < width && 0 <= i && i * width + x < b.len() ==> #[trigger] cell(
                a + b,
                width,
                x,
                rows_a + i,
            ) == cell(b, width, x, i),
{
    assert forall|x: int, y: int| 0 <= x < width && 0 <= y < rows_a implies #[trigger] cell(
        a + b,
        width,
        x,
        y,
    ) == cell(a, width, x, y) by {
        assert(0 <= y * width + x < rows_a * width) by (nonlinear_arith)
            requires
                0 <= x < width,
                0 <= y < rows_a,
        ;
    }
    assert forall|x: int, i: int|
        0 <= x < width && 0 <= i && i * width + x < b.len() implies #[trigger] cell(
        a + b,
        width,
        x,
        rows_a + i,
    ) == cell(b, width, x, i) by {
        assert((rows_a + i) * width + x == rows_a * width + (i * width + x)) by (nonlinear_arith);
        assert(0 <= i * width) by (nonlinear_arith)
            requires
                0 <= i,
                0 <= width,
        ;
    }
}

/// Rows `top..top + count` of `pass` applied to `src`, each `width` long. The
/// strip keeps its own window of filtered rows, so strips can be computed
/// apart from one another.
pub fn resample_rows<T: Copy, F: Fn(u32, Vec<(u32, T)>) -> T>(
    src: &Plane<T>,
    width: usize,
    top: usize,
    count: usize,
    span: (usize, usize),
    pass: Taps,
    border: Border,
    blend: &F,
) -> (strip: Vec<T>)
    requires
        src@.wf(),
        width >= 1,
        axis_ok(src@.width as int, width as int),
        forall|d: int|
            0 <= d < width ==> (inside(pass, src@.width as int, d) <==> span.0 <= d < span.1),
        side_fits(src@.height as int),
        count > 0 ==> src@.height >= 1,
        2 * (top + count) + TAPS <= isize::MAX,
        count * width <= usize::MAX,
        total(*blend),
    ensures
        strip@.len() == count * width,
        forall|x: int, i: int|
            0 <= x < width && 0 <= i < count ==> resampled_at(
                src@,
                pass,
                border,
                *blend,
                x,
                top + i,
                #[trigger] cell(strip@, width as int, x, i),
            ),
{
    let src_height = src.height();
    let mut window: FilteredRows<T> = FilteredRows::new(width);
    let mut strip: Vec<T> = Vec::new();
    let mut i: usize = 0;
    while i < count
        invariant
            i <= count,
            src_height == src@.height,
            src@.wf(),
            axis_ok(src@.width as int, width as int),
            forall|d: int|
                0 <= d < width ==> (inside(pass, src@.width as int, d) <==> span.0 <= d < span.1),
            side_fits(src@.height as int),
            count > 0 ==> src@.height >= 1,
            2 * (top + count) + TAPS <= isize::MAX,
            count * width <= usize::MAX,
            total(*blend),
            window.valid(src@, pass, border, *blend),
            window.width == width,
            strip@.len() == i * width,
            forall|x: int, j: int|
                0 <= x < width && 0 <= j < i ==> resampled_at(
                    src@,
                    pass,
                    border,
                    *blend,
                    x,
                    top + j,
                    #[trigger] cell(strip@, width as int, x, j),
                ),
        decreases count - i,
    {
        let y = top + i;
        let rows = bordered_taps(pass, src_height, y, border);
        proof {
            lemma_taps_are_kernel_taps(pass, src_height as int, border, y as int, TAPS as int);
            lemma_taps_are_close(pass, src_height as int, border, y as int);
        }
        let mut k: usize = 0;
        while k < rows.len()
            invariant
                k <= rows@.len(),
                rows@ == axis_taps(pass, src@.height as int, border, y as int),
                forall|j: int| 0 <= j < rows@.len() ==> (#[trigger] rows@[j]).1 < src@.height,
                forall|a: int, b: int|
                    0 <= a < rows@.len() && 0 <= b < rows@.len() ==> -4 <= #[trigger] rows@[a].1
                        as int - #[trigger] rows@[b].1 as int <= 4,
                src@.wf(),
                axis_ok(src@.width as int, width as int),
                forall|d: int|
                    0 <= d < width ==> (inside(pass, src@.width as int, d) <==> span.0 <= d
                        < span.1),
                total(*blend),
                window.valid(src@, pass, border, *blend),
                window.width == width,
                forall|j: int| 0 <= j < k ==> window.holds_row((#[trigger] rows@[j]).1 as int),
            decreases rows@.len() - k,
        {
            let ghost before = window;
            let source_row = rows[k].1;
            assert(rows@[k as int].1 < src@.height);
            window.fetch(source_row, src, span, pass, border, blend);
            proof {
                assert forall|j: int| 0 <= j < k + 1 implies window.holds_row(
                    (#[trigger] rows@[j]).1 as int,
                ) by {
                    if j < k {
                        let r = rows@[j].1 as int;
                        assert(before.holds_row(r));
                        if r % (TAPS as int) == source_row as int % (TAPS as int) {
                            assert(-4 <= rows@[j].1 as int - rows@[k as int].1 as int <= 4);
                            lemma_close_rows_have_their_own_slots(r, source_row as int);
                        }
                    }
                }
            }
            k = k + 1;
        }
        let row = blend_rows(&window, &rows, src, pass, border, blend);
        let ghost old_strip = strip@;
        let mut row_owned = row;
        let ghost row_view = row_owned@;
        strip.append(&mut row_owned);
        proof {
            lemma_cell_of_concat(old_strip, row_view, width as int, i as int);
            assert forall|x: int, j: int|
                0 <= x < width && 0 <= j < i + 1 implies resampled_at(
                src@,
                pass,
                border,
                *blend,
                x,
                top + j,
                #[trigger] cell(strip@, width as int, x, j),
            ) by {
                if j == i {
                    assert(cell(strip@, width as int, x, i + 0) == cell(row_view, width as int, x, 0));
                    assert(cell(row_view, width as int, x, 0) == row_view[x]);
                }
            }
            assert((i + 1) * width == i * width + width) by (nonlinear_arith);
            assert((i + 1) * width <= count * width) by (nonlinear_arith)
                requires
                    i + 1 <= count,
            ;
        }
        i = i + 1;
    }
    strip
}

/// `pass` applied to `src` onto a `width` by `height` destination, strip by
/// strip.
pub fn resample<T: Copy, F: Fn(u32, Vec<(u32, T)>) -> T>(
    src: &Plane<T>,
    width: usize,
    height: usize,
    pass: Taps,
    border: Border,
    blend: &F,
) -> (samples: Vec<T>)
    requires
        src@.wf(),
        width >= 1,
        axis_ok(src@.width as int, width as int),
        side_fits(src@.height as int),
        height > 0 ==> src@.height >= 1,
        2 * height + TAPS <= isize::MAX,
        width * height <= usize::MAX,
        total(*blend),
    ensures
        samples@.len() == width * height,
        forall|x: int, y: int|
            0 <= x < width && 0 <= y < height ==> resampled_at(
                src@,
                pass,
                border,
                *blend,
                x,
                y,
                #[trigger] cell(samples@, width as int, x, y),
            ),
{
    let span = interior(pass, width, src.width());
    let strip_height = rows_per_strip(height);
    let mut samples: Vec<T> = Vec::new();
    let mut top: usize = 0;
    while top < height
        invariant
            top <= height,
            strip_height >= 1,
            src@.wf(),
            width >= 1,
            axis_ok(src@.width as int, width as int),
            forall|d: int|
                0 <= d < width ==> (inside(pass, src@.width as int, d) <==> span.0 <= d < span.1),
            side_fits(src@.height as int),
            height > 0 ==> src@.height >= 1,
            2 * height + TAPS <= isize::MAX,
            width * height <= usize::MAX,
            total(*blend),
            samples@.len() == top * width,
            forall|x: int, y: int|
                0 <= x < width && 0 <= y < top ==> resampled_at(
                    src@,
                    pass,
                    border,
                    *blend,
                    x,
                    y,
                    #[trigger] cell(samples@, width as int, x, y),
                ),
        decreases height - top,
    {
        let count = if strip_height < height - top {
            strip_height
        } else {
            height - top
        };
        proof {
            assert(count * width <= height * width) by (nonlinear_arith)
                requires
                    count <= height,
            ;
            assert(height * width == width * height) by (nonlinear_arith);
        }
        let strip = resample_rows(src, width, top, count, span, pass, border, blend);
        let ghost before = samples@;
        let ghost strip_view = strip@;
        let mut strip_owned = strip;
        samples.append(&mut strip_owned);
        proof {
            lemma_cell_of_concat(before, strip_view, width as int, top as int);
            assert forall|x: int, y: int| 0 <= x < width && 0 <= y < top + count implies resampled_at(
                src@,
                pass,
                border,
                *blend,
                x,
                y,
                #[trigger] cell(samples@, width as int, x, y),
            ) by {
                if y >= top {
                    let i = y - top;
                    assert(i * width + x < count * width) by (nonlinear_arith)
                        requires
                            0 <= x < width,
                            0 <= i < count,
                    ;
                    assert(cell(samples@, width as int, x, top + i) == cell(
                        strip_view,
                        width as int,
                        x,
                        i,
                    ));
                }
            }
            assert((top + count) * width == top * width + count * width) by (nonlinear_arith);
        }
        top = top + count;
    }
    proof {
        assert(height * width == width * height) by (nonlinear_arith);
    }
    samples
}

/// Blurs and halves a plane, rounding each dimension up.
///
/// Destination `(x, y)` centres the kernel on source `(2x, 2y)`; `blend`
/// weighs each tap's sample, first along the rows and then down the columns,
/// with gain 1.
pub fn reduce<T: Copy, F: Fn(u32, Vec<(u32, T)>) -> T>(
    src: &Plane<T>,
    border: Border,
    blend: &F,
) -> (reduced: Plane<T>)
    requires
        src@.wf(),
        side_fits(src@.width as int),
        side_fits(src@.height as int),
        total(*blend),
    ensures
        reduced@.width == halved(src@.width as int),
        reduced@.height == halved(src@.height as int),
        resampled(src@, Taps::Decimate, border, *blend, reduced@),
{
    let src_width = src.width();
    let src_height = src.height();
    let width = src_width / 2 + src_width % 2;
    let height = src_height / 2 + src_height % 2;
    let sample_count = src.as_slice().len();
    proof {
        assert(width * height <= src_width * src_height) by (nonlinear_arith)
            requires
                width <= src_width,
                height <= src_height,
        ;
        assert(src_width * src_height == sample_count);
    }
    if width == 0 {
        proof {
            assert(0 * height == 0);
        }
        return Plane::from_vec(Vec::new(), 0, height);
    }
    let samples = resample(src, width, height, Taps::Decimate, border, blend);
    let reduced = Plane::from_vec(samples, width, height);
    proof {
        assert forall|x: int, y: int|
            0 <= x < reduced@.width && 0 <= y < reduced@.height implies resampled_at(
            src@,
            Taps::Decimate,
            border,
            *blend,
            x,
            y,
            #[trigger] reduced@.at(x, y),
        ) by {
            assert(reduced@.at(x, y) == cell(samples@, width as int, x, y));
        }
    }
    reduced
}

/// Doubles a plane onto an explicitly sized destination.
///
/// The size is given rather than derived because doubling is ambiguous: a
/// 51-wide plane expands to either 101 or 102, and only the caller knows which
/// one it was reduced from. The caller owes a `width` and `height` that
/// reduce back to the source dimensions.
///
/// Destination `(x, y)` centres the kernel on `(x, y)` of the source upsampled
/// with zeros between its samples; `blend` weighs the taps that land on real
/// samples, with gain 2.
pub fn expand<T: Copy, F: Fn(u32, Vec<(u32, T)>) -> T>(
    src: &Plane<T>,
    width: usize,
    height: usize,
    border: Border,
    blend: &F,
) -> (expanded: Plane<T>)
    requires
        src@.wf(),
        halved(width as int) == src@.width,
        halved(height as int) == src@.height,
        side_fits(src@.width as int),
        side_fits(src@.height as int),
        width * height <= usize::MAX,
        total(*blend),
    ensures
        expanded@.width == width,
        expanded@.height == height,
        resampled(src@, Taps::Interpolate, border, *blend, expanded@),
{
    if width == 0 {
        return Plane::from_vec(Vec::new(), 0, height);
    }
    let samples = resample(src, width, height, Taps::Interpolate, border, blend);
    let expanded = Plane::from_vec(samples, width, height);
    proof {
        assert forall|x: int, y: int|
            0 <= x < expanded@.width && 0 <= y < expanded@.height implies resampled_at(
            src@,
            Taps::Interpolate,
            border,
            *blend,
            x,
            y,
            #[trigger] expanded@.at(x, y),
        ) by {
            assert(expanded@.at(x, y) == cell(samples@, width as int, x, y));
        }
    }
    expanded
}

/// With a deterministic blend, a sample blended down the same rows has one
/// value.
pub proof fn lemma_blended_from_is_determined<T, F: Fn(u32, Vec<(u32, T)>) -> T>(
    src: PlaneView<T>,
    pass: Taps,
    border: Border,
    blend: F,
    rows: Seq<(u32, usize)>,
    x: int,
    v: T,
    w: T,
)
    requires
        deterministic(blend),
        blended_from(src, pass, border, blend, rows, x, v),
        blended_from(src, pass, border, blend, rows, x, w),
    ensures
        v == w,
{
    let vs = choose|values: Seq<T>|
        {
            &&& values.len() == rows.len()
            &&& forall|k: int|
                0 <= k < rows.len() ==> filtered_at(
                    src,
                    pass,
                    border,
                    blend,
                    rows[k].1 as int,
                    x,
                    #[trigger] values[k],
                )
            &&& #[trigger] blends(blend, pass.spec_gain(), weighted(rows, values), v)
        };
    let ws = choose|values: Seq<T>|
        {
            &&& values.len() == rows.len()
            &&& forall|k: int|
                0 <= k < rows.len() ==> filtered_at(
                    src,
                    pass,
                    border,
                    blend,
                    rows[k].1 as int,
                    x,
                    #[trigger] values[k],
                )
            &&& #[trigger] blends(blend, pass.spec_gain(), weighted(rows, values), w)
        };
    assert forall|k: int| 0 <= k < rows.len() implies vs[k] == ws[k] by {
        assert(filtered_at(src, pass, border, blend, rows[k].1 as int, x, vs[k]));
        assert(filtered_at(src, pass, border, blend, rows[k].1 as int, x, ws[k]));
        lemma_blends_is_determined(
            blend,
            pass.spec_gain(),
            crate::rows::samples_at(
                src.row(rows[k].1 as int),
                axis_taps(pass, src.width as int, border, x),
            ),
            vs[k],
            ws[k],
        );
    }
    assert(vs =~= ws);
    lemma_blends_is_determined(blend, pass.spec_gain(), weighted(rows, vs), v, w);
}

/// With a deterministic blend, resampling a plane onto a given size has one
/// outcome.
pub proof fn lemma_resampled_is_determined<T, F: Fn(u32, Vec<(u32, T)>) -> T>(
    src: PlaneView<T>,
    pass: Taps,
    border: Border,
    blend: F,
    a: PlaneView<T>,
    b: PlaneView<T>,
)
    requires
        deterministic(blend),
        resampled(src, pass, border, blend, a),
        resampled(src, pass, border, blend, b),
        a.same_size(b),
    ensures
        a == b,
{
    assert forall|i: int| 0 <= i < a.samples.len() implies a.samples[i] == b.samples[i] by {
        let w = a.width as int;
        assert(w > 0) by (nonlinear_arith)
            requires
                0 <= i < a.samples.len(),
                a.samples.len() == a.width * a.height,
                w == a.width,
        ;
        vstd::arithmetic::div_mod::lemma_fundamental_div_mod(i, w);
        let y = i / w;
        let x = i % w;
        assert(0 <= y < a.height) by (nonlinear_arith)
            requires
                i == w * y + x,
                0 <= x < w,
                0 <= i < w * a.height,
        ;
        assert(y * w + x == i) by (nonlinear_arith)
            requires
                i == w * y + x,
        ;
        assert(resampled_at(src, pass, border, blend, x, y, a.at(x, y)));
        assert(resampled_at(src, pass, border, blend, x, y, b.at(x, y)));
        lemma_blended_from_is_determined(
            src,
            pass,
            border,
            blend,
            axis_taps(pass, src.height as int, border, y),
            x,
            a.at(x, y),
            b.at(x, y),
        );
    }
    assert(a.samples =~= b.samples);
}

/// `blend` answers taps that all carry one value with that value.
pub open spec fn keeps_constants<T, F: Fn(u32, Vec<(u32, T)>) -> T>(blend: F) -> bool {
    forall|gain: u32, taps: Vec<(u32, T)>, r: T|
        taps@.len() > 0 && (forall|k: int| 0 <= k < taps@.len() ==> (#[trigger] taps@[k]).1 == taps@[0].1)
            && #[trigger] call_ensures(blend, (gain, taps), r) ==> r == taps@[0].1
}

/// Every destination has a tap that reads a real sample.
pub proof fn lemma_some_tap_contributes(pass: Taps, len: int, border: Border, destination: int)
    ensures
        axis_taps(pass, len, border, destination).len() >= 1,
{
    let c0 = pass.spec_coordinate(destination, 0);
    let k = if pass.spec_contributes(c0) {
        0int
    } else {
        1int
    };
    assert(pass.spec_contributes(pass.spec_coordinate(destination, k)));
    lemma_contributing_tap_is_kept(pass, len, border, destination, k, TAPS as int);
}

proof fn lemma_contributing_tap_is_kept(
    pass: Taps,
    len: int,
    border: Border,
    destination: int,
    k: int,
    n: int,
)
    requires
        0 <= k < n,
        pass.spec_contributes(pass.spec_coordinate(destination, k)),
    ensures
        taps_upto(pass, len, border, destination, n).len() >= 1,
    decreases n,
{
    if k < n - 1 {
        lemma_contributing_tap_is_kept(pass, len, border, destination, k, n - 1);
    }
}

/// A constant blend of a constant: when `blend` answers uniform taps with
/// their value, a plane holding one value everywhere resamples to a plane
/// holding that value everywhere.
pub proof fn lemma_constant_survives_resampling<T, F: Fn(u32, Vec<(u32, T)>) -> T>(
    src: PlaneView<T>,
    pass: Taps,
    border: Border,
    blend: F,
    value: T,
    dst: PlaneView<T>,
)
    requires
        keeps_constants(blend),
        src.wf(),
        1 <= src.width <= usize::MAX,
        1 <= src.height <= usize::MAX,
        forall|i: int| 0 <= i < src.samples.len() ==> src.samples[i] == value,
        resampled(src, pass, border, blend, dst),
    ensures
        forall|i: int| 0 <= i < dst.samples.len() ==> dst.samples[i] == value,
{
    assert forall|r: int, x: int, v: T|
        0 <= r < src.height && filtered_at(src, pass, border, blend, r, x, v) implies v == value by {
        let taps = axis_taps(pass, src.width as int, border, x);
        let line = src.row(r);
        crate::rows::lemma_row_in_bounds(r, src.width as int, src.height as int);
        crate::rows::lemma_taps_are_kernel_taps(
            pass,
            src.width as int,
            border,
            x,
            TAPS as int,
        );
        lemma_some_tap_contributes(pass, src.width as int, border, x);
        let pairs = samples_at(line, taps);
        assert forall|k: int| 0 <= k < pairs.len() implies pairs[k].1 == value by {
            assert(taps[k] == taps_upto(pass, src.width as int, border, x, TAPS as int)[k]);
        }
        let given = choose|given: Vec<(u32, T)>|
            given@ == pairs && #[trigger] call_ensures(blend, (pass.spec_gain(), given), v);
        assert(call_ensures(blend, (pass.spec_gain(), given), v));
    }
    assert forall|i: int| 0 <= i < dst.samples.len() implies dst.samples[i] == value by {
        let w = dst.width as int;
        assert(w > 0) by (nonlinear_arith)
            requires
                0 <= i < dst.samples.len(),
                dst.samples.len() == dst.width * dst.height,
                w == dst.width,
        ;
        vstd::arithmetic::div_mod::lemma_fundamental_div_mod(i, w);
        let y = i / w;
        let x = i % w;
        assert(0 <= y < dst.height) by (nonlinear_arith)
            requires
                i == w * y + x,
                0 <= x < w,
                0 <= i < w * dst.height,
        ;
        assert(y * w + x == i) by (nonlinear_arith)
            requires
                i == w * y + x,
        ;
        let v = dst.at(x, y);
        assert(resampled_at(src, pass, border, blend, x, y, v));
        let rows = axis_taps(pass, src.height as int, border, y);
        crate::rows::lemma_taps_are_kernel_taps(
            pass,
            src.height as int,
            border,
            y,
            TAPS as int,
        );
        lemma_some_tap_contributes(pass, src.height as int, border, y);
        let values = choose|values: Seq<T>|
            {
                &&& values.len() == rows.len()
                &&& forall|k: int|
                    0 <= k < rows.len() ==> filtered_at(
                        src,
                        pass,
                        border,
                        blend,
                        rows[k].1 as int,
                        x,
                        #[trigger] values[k],
                    )
                &&& #[trigger] blends(blend, pass.spec_gain(), weighted(rows, values), v)
            };
        assert forall|k: int| 0 <= k < rows.len() implies values[k] == value by {
            assert(rows[k] == taps_upto(pass, src.height as int, border, y, TAPS as int)[k]);
            assert(filtered_at(src, pass, border, blend, rows[k].1 as int, x, values[k]));
        }
        let pairs = weighted(rows, values);
        let given = choose|given: Vec<(u32, T)>|
            given@ == pairs && #[trigger] call_ensures(blend, (pass.spec_gain(), given), v);
        assert(call_ensures(blend, (pass.spec_gain(), given), v));
        assert(dst.samples[i] == v);
    }
}

} // verus!
