use vstd::prelude::*;

use crate::border::{resolved, Border};
use crate::exact::{
    kernel_total, lemma_affine_planes_are_reproduced_inside,
    lemma_separable_passes_equal_the_kernel, lemma_tap_step, row_total, sums_exactly,
};
use crate::kernel::{kernel_weight, Taps, TAPS};
use crate::ops::resampled;
use crate::plane::PlaneView;
use crate::rows::{axis_taps, inside, lemma_taps_are_kernel_taps, tap_source, taps_upto};

verus! {

/// Tap `k` of the 5-tap binomial kernel `[1, 4, 6, 4, 1]` of Burt & Adelson.
pub open spec fn binomial(k: int) -> int {
    if k == 0 || k == 4 {
        1
    } else if k == 1 || k == 3 {
        4
    } else {
        6
    }
}

/// Decimation along row `r`, first `n` taps: destination column `x` reads
/// source column `2x + k - 2`, resolved on the row's own `width` samples.
pub open spec fn decimated_row(
    src: PlaneView<i64>,
    border: Border,
    x: int,
    r: int,
    row_weight: int,
    n: int,
) -> int
    decreases n,
{
    if n <= 0 {
        0
    } else {
        decimated_row(src, border, x, r, row_weight, n - 1) + row_weight * binomial(n - 1)
            * src.at(resolved(border, 2 * x + (n - 1) - 2, src.width as int), r)
    }
}

/// Decimation over the first `n` row taps: destination row `y` reads source row
/// `2y + j - 2`, resolved on the plane's `height` rows.
pub open spec fn decimated_rows(src: PlaneView<i64>, border: Border, x: int, y: int, n: int) -> int
    decreases n,
{
    if n <= 0 {
        0
    } else {
        decimated_rows(src, border, x, y, n - 1) + decimated_row(
            src,
            border,
            x,
            resolved(border, 2 * y + (n - 1) - 2, src.height as int),
            binomial(n - 1),
            5,
        )
    }
}

/// The unfactored 5x5 kernel of `reduce` at `(x, y)`, unnormalised: centred
/// on source `(2x, 2y)`, every pair of taps weighted by the product of their
/// binomial weights.
pub open spec fn reduce_reference(src: PlaneView<i64>, border: Border, x: int, y: int) -> int {
    decimated_rows(src, border, x, y, 5)
}

/// Interpolation along row `r`, first `n` taps: destination column `x` sits
/// on coordinate `x` of the row upsampled with a zero after every sample;
/// tap `k` reads coordinate `x + k - 2` when it is even, resolved on the
/// `2 * width` upsampled coordinates, and so source column half of it.
pub open spec fn interpolated_row(
    src: PlaneView<i64>,
    border: Border,
    x: int,
    r: int,
    row_weight: int,
    n: int,
) -> int
    decreases n,
{
    if n <= 0 {
        0
    } else {
        interpolated_row(src, border, x, r, row_weight, n - 1) + if (x + (n - 1) - 2) % 2 == 0 {
            row_weight * binomial(n - 1) * src.at(
                resolved(border, x + (n - 1) - 2, 2 * src.width as int) / 2,
                r,
            )
        } else {
            0
        }
    }
}

/// Interpolation over the first `n` row taps, in the same way down the
/// columns.
pub open spec fn interpolated_rows(src: PlaneView<i64>, border: Border, x: int, y: int, n: int) -> int
    decreases n,
{
    if n <= 0 {
        0
    } else {
        interpolated_rows(src, border, x, y, n - 1) + if (y + (n - 1) - 2) % 2 == 0 {
            interpolated_row(
                src,
                border,
                x,
                resolved(border, y + (n - 1) - 2, 2 * src.height as int) / 2,
                binomial(n - 1),
                5,
            )
        } else {
            0
        }
    }
}

/// The unfactored 5x5 kernel of `expand` at `(x, y)`, unnormalised: over the
/// plane upsampled with zeros, the taps that land on real samples, with the
/// gain of 2 on each axis that restores what the zeros took.
pub open spec fn expand_reference(src: PlaneView<i64>, border: Border, x: int, y: int) -> int {
    4 * interpolated_rows(src, border, x, y, 5)
}

proof fn lemma_decimated_row(
    src: PlaneView<i64>,
    border: Border,
    x: int,
    row: (u32, usize),
    n: int,
)
    requires
        1 <= src.width <= usize::MAX,
        0 <= x,
        0 <= n <= TAPS,
    ensures
        row_total(src, row, taps_upto(Taps::Decimate, src.width as int, border, x, n))
            == decimated_row(src, border, x, row.1 as int, row.0 as int, n),
    decreases n,
{
    if n > 0 {
        let k = n - 1;
        let len = src.width as int;
        lemma_decimated_row(src, border, x, row, k);
        lemma_tap_step(Taps::Decimate, len, border, x, k);
        lemma_taps_are_kernel_taps(Taps::Decimate, len, border, x, n);
        let before = taps_upto(Taps::Decimate, len, border, x, k);
        let source = tap_source(Taps::Decimate, len, border, x, k);
        assert(0 <= source < len);
        assert(source == resolved(border, 2 * x + k - 2, len));
        let tap = (kernel_weight(k), source as usize);
        assert(before.push(tap).drop_last() =~= before);
        assert(kernel_weight(k) == binomial(k));
    }
}

proof fn lemma_decimated_rows(src: PlaneView<i64>, border: Border, x: int, y: int, n: int)
    requires
        1 <= src.width <= usize::MAX,
        1 <= src.height <= usize::MAX,
        0 <= x,
        0 <= y,
        0 <= n <= TAPS,
    ensures
        kernel_total(
            src,
            taps_upto(Taps::Decimate, src.height as int, border, y, n),
            axis_taps(Taps::Decimate, src.width as int, border, x),
        ) == decimated_rows(src, border, x, y, n),
    decreases n,
{
    if n > 0 {
        let k = n - 1;
        let len = src.height as int;
        let columns = axis_taps(Taps::Decimate, src.width as int, border, x);
        lemma_decimated_rows(src, border, x, y, k);
        lemma_tap_step(Taps::Decimate, len, border, y, k);
        lemma_taps_are_kernel_taps(Taps::Decimate, len, border, y, n);
        let before = taps_upto(Taps::Decimate, len, border, y, k);
        let source = tap_source(Taps::Decimate, len, border, y, k);
        assert(0 <= source < len);
        assert(source == resolved(border, 2 * y + k - 2, len));
        let tap = (kernel_weight(k), source as usize);
        assert(before.push(tap).drop_last() =~= before);
        assert(kernel_weight(k) == binomial(k));
        lemma_decimated_row(src, border, x, tap, TAPS as int);
    }
}

proof fn lemma_interpolated_row(
    src: PlaneView<i64>,
    border: Border,
    x: int,
    row: (u32, usize),
    n: int,
)
    requires
        1 <= src.width,
        2 * src.width <= usize::MAX,
        0 <= x,
        0 <= n <= TAPS,
    ensures
        row_total(src, row, taps_upto(Taps::Interpolate, src.width as int, border, x, n))
            == interpolated_row(src, border, x, row.1 as int, row.0 as int, n),
    decreases n,
{
    if n > 0 {
        let k = n - 1;
        let len = src.width as int;
        lemma_interpolated_row(src, border, x, row, k);
        lemma_tap_step(Taps::Interpolate, len, border, x, k);
        lemma_taps_are_kernel_taps(Taps::Interpolate, len, border, x, n);
        let before = taps_upto(Taps::Interpolate, len, border, x, k);
        let source = tap_source(Taps::Interpolate, len, border, x, k);
        assert(0 <= source < len);
        assert(source == resolved(border, x + k - 2, 2 * len) / 2);
        assert(Taps::Interpolate.spec_contributes(Taps::Interpolate.spec_coordinate(x, k)) <==> (x
            + k - 2) % 2 == 0);
        let tap = (kernel_weight(k), source as usize);
        assert(before.push(tap).drop_last() =~= before);
        assert(kernel_weight(k) == binomial(k));
    }
}

proof fn lemma_interpolated_rows(src: PlaneView<i64>, border: Border, x: int, y: int, n: int)
    requires
        1 <= src.width,
        2 * src.width <= usize::MAX,
        1 <= src.height,
        2 * src.height <= usize::MAX,
        0 <= x,
        0 <= y,
        0 <= n <= TAPS,
    ensures
        kernel_total(
            src,
            taps_upto(Taps::Interpolate, src.height as int, border, y, n),
            axis_taps(Taps::Interpolate, src.width as int, border, x),
        ) == interpolated_rows(src, border, x, y, n),
    decreases n,
{
    if n > 0 {
        let k = n - 1;
        let len = src.height as int;
        lemma_interpolated_rows(src, border, x, y, k);
        lemma_tap_step(Taps::Interpolate, len, border, y, k);
        lemma_taps_are_kernel_taps(Taps::Interpolate, len, border, y, n);
        let before = taps_upto(Taps::Interpolate, len, border, y, k);
        let source = tap_source(Taps::Interpolate, len, border, y, k);
        assert(0 <= source < len);
        assert(source == resolved(border, y + k - 2, 2 * len) / 2);
        assert(Taps::Interpolate.spec_contributes(Taps::Interpolate.spec_coordinate(y, k)) <==> (y
            + k - 2) % 2 == 0);
        let tap = (kernel_weight(k), source as usize);
        assert(before.push(tap).drop_last() =~= before);
        assert(kernel_weight(k) == binomial(k));
        lemma_interpolated_row(src, border, x, tap, TAPS as int);
    }
}

/// `reduce` is the unfactored 5x5 binomial kernel centred on source
/// `(2x, 2y)`: with an exact weighted-sum blend, every destination sample is
/// the sum, over the 25 pairs of taps `(j, k)`, of the product of their
/// weights times the source sample at column `2x + k - 2` and row
/// `2y + j - 2`, each resolved by `border` on the source's own width and
/// height.
pub proof fn lemma_reduce_is_the_binomial_kernel<F: Fn(u32, Vec<(u32, i64)>) -> i64>(
    src: PlaneView<i64>,
    border: Border,
    blend: F,
    dst: PlaneView<i64>,
    x: int,
    y: int,
)
    requires
        sums_exactly(blend),
        src.wf(),
        1 <= src.width <= usize::MAX,
        1 <= src.height <= usize::MAX,
        resampled(src, Taps::Decimate, border, blend, dst),
        0 <= x < dst.width,
        0 <= y < dst.height,
    ensures
        dst.at(x, y) == reduce_reference(src, border, x, y),
{
    lemma_separable_passes_equal_the_kernel(src, Taps::Decimate, border, blend, dst, x, y);
    lemma_decimated_rows(src, border, x, y, TAPS as int);
    let total = kernel_total(
        src,
        axis_taps(Taps::Decimate, src.height as int, border, y),
        axis_taps(Taps::Decimate, src.width as int, border, x),
    );
    let gain = Taps::Decimate.spec_gain() as int;
    assert(gain == 1);
    assert(gain * gain * total == total) by (nonlinear_arith)
        requires
            gain == 1,
    ;
}

/// `expand` is the unfactored 5x5 binomial kernel over the source upsampled
/// with a zero after every sample: with an exact weighted-sum blend, every
/// destination sample is 4 times the sum, over the pairs of taps `(j, k)`
/// whose upsampled coordinates `x + k - 2` and `y + j - 2` are both even, of
/// the product of their weights times the source sample at half those
/// coordinates, each resolved by `border` on twice the source's width and
/// height.
pub proof fn lemma_expand_is_the_binomial_kernel<F: Fn(u32, Vec<(u32, i64)>) -> i64>(
    src: PlaneView<i64>,
    border: Border,
    blend: F,
    dst: PlaneView<i64>,
    x: int,
    y: int,
)
    requires
        sums_exactly(blend),
        src.wf(),
        1 <= src.width,
        2 * src.width <= usize::MAX,
        1 <= src.height,
        2 * src.height <= usize::MAX,
        resampled(src, Taps::Interpolate, border, blend, dst),
        0 <= x < dst.width,
        0 <= y < dst.height,
    ensures
        dst.at(x, y) == expand_reference(src, border, x, y),
{
    lemma_separable_passes_equal_the_kernel(src, Taps::Interpolate, border, blend, dst, x, y);
    lemma_interpolated_rows(src, border, x, y, TAPS as int);
}

/// `reduce` samples an affine plane at even coordinates: with an exact
/// weighted-sum blend, a plane whose sample at `(i, r)` is `a + b*i + c*r`
/// reduces, wherever the kernel fits inside the source (`2 <= 2x`,
/// `2x + 2 < width`, and likewise in `y`), to 256 times the plane at
/// `(2x, 2y)`.
pub proof fn lemma_reduce_samples_affine_planes_at_even_coordinates<
    F: Fn(u32, Vec<(u32, i64)>) -> i64,
>(
    src: PlaneView<i64>,
    border: Border,
    blend: F,
    dst: PlaneView<i64>,
    a: int,
    b: int,
    c: int,
    x: int,
    y: int,
)
    requires
        sums_exactly(blend),
        src.wf(),
        1 <= src.width <= usize::MAX,
        1 <= src.height <= usize::MAX,
        forall|i: int, r: int|
            0 <= i < src.width && 0 <= r < src.height ==> #[trigger] src.at(i, r) == a + b * i
                + c * r,
        resampled(src, Taps::Decimate, border, blend, dst),
        0 <= x < dst.width,
        0 <= y < dst.height,
        2 <= 2 * x,
        2 * x + 2 < src.width,
        2 <= 2 * y,
        2 * y + 2 < src.height,
    ensures
        dst.at(x, y) == 256 * (a + b * (2 * x) + c * (2 * y)),
{
    assert(inside(Taps::Decimate, src.width as int, x));
    assert(inside(Taps::Decimate, src.height as int, y));
    lemma_affine_planes_are_reproduced_inside(src, Taps::Decimate, border, blend, dst, a, b, c, x, y);
    assert(128 * (2 * a + b * (4 * x) + c * (4 * y)) == 256 * (a + b * (2 * x) + c * (2 * y)))
        by (nonlinear_arith);
}

/// `expand` interpolates an affine plane: with an exact weighted-sum blend, a
/// plane whose sample at `(i, r)` is `a + b*i + c*r` expands, wherever the
/// kernel fits inside the upsampled plane (`2 <= x`, `x + 2 < 2 * width`, and
/// likewise in `y`), to 256 times the plane at `(x/2, y/2)`, that is 128
/// times `2a + b*x + c*y`.
pub proof fn lemma_expand_interpolates_affine_planes<F: Fn(u32, Vec<(u32, i64)>) -> i64>(
    src: PlaneView<i64>,
    border: Border,
    blend: F,
    dst: PlaneView<i64>,
    a: int,
    b: int,
    c: int,
    x: int,
    y: int,
)
    requires
        sums_exactly(blend),
        src.wf(),
        1 <= src.width <= usize::MAX,
        1 <= src.height <= usize::MAX,
        forall|i: int, r: int|
            0 <= i < src.width && 0 <= r < src.height ==> #[trigger] src.at(i, r) == a + b * i
                + c * r,
        resampled(src, Taps::Interpolate, border, blend, dst),
        0 <= x < dst.width,
        0 <= y < dst.height,
        2 <= x,
        x + 2 < 2 * src.width,
        2 <= y,
        y + 2 < 2 * src.height,
    ensures
        dst.at(x, y) == 128 * (2 * a + b * x + c * y),
{
    assert(inside(Taps::Interpolate, src.width as int, x));
    assert(inside(Taps::Interpolate, src.height as int, y));
    lemma_affine_planes_are_reproduced_inside(
        src,
        Taps::Interpolate,
        border,
        blend,
        dst,
        a,
        b,
        c,
        x,
        y,
    );
}

} // verus!
