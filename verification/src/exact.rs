use vstd::prelude::*;

use crate::border::Border;
use crate::kernel::{kernel_weight, Taps, TAPS};
use crate::ops::{blended_from, resampled, resampled_at, weighted};
use crate::plane::PlaneView;
use crate::rows::{
    axis_taps, blends, filtered_at, inside, lemma_inside_needs_no_border, lemma_row_in_bounds,
    lemma_taps_are_kernel_taps, samples_at, tap_source, taps_upto,
};

verus! {

/// The weighted sum of the taps, exactly: each weight times its sample.
pub open spec fn weighted_total(taps: Seq<(u32, i64)>) -> int
    decreases taps.len(),
{
    if taps.len() == 0 {
        0
    } else {
        weighted_total(taps.drop_last()) + taps.last().0 * taps.last().1
    }
}

/// `blend` answers with the gain times the exact weighted sum of its taps,
/// the kernel's arithmetic without rounding or normalisation.
pub open spec fn sums_exactly<F: Fn(u32, Vec<(u32, i64)>) -> i64>(blend: F) -> bool {
    forall|gain: u32, taps: Vec<(u32, i64)>, r: i64|
        #[trigger] call_ensures(blend, (gain, taps), r) ==> r == gain * weighted_total(taps@)
}

/// Row `row.1` of `src` read at the columns of `columns`, each sample weighted
/// by the product of the row's weight and the column's.
pub open spec fn row_total(src: PlaneView<i64>, row: (u32, usize), columns: Seq<(u32, usize)>) -> int
    decreases columns.len(),
{
    if columns.len() == 0 {
        0
    } else {
        row_total(src, row, columns.drop_last()) + (row.0 * columns.last().0) * src.at(
            columns.last().1 as int,
            row.1 as int,
        )
    }
}

/// The unfactored kernel: every pair of a row tap and a column tap, each
/// sample weighted by the product of the two weights.
pub open spec fn kernel_total(
    src: PlaneView<i64>,
    rows: Seq<(u32, usize)>,
    columns: Seq<(u32, usize)>,
) -> int
    decreases rows.len(),
{
    if rows.len() == 0 {
        0
    } else {
        kernel_total(src, rows.drop_last(), columns) + row_total(src, rows.last(), columns)
    }
}

/// The weights of `taps`, summed.
pub open spec fn weight_sum(taps: Seq<(u32, usize)>) -> int
    decreases taps.len(),
{
    if taps.len() == 0 {
        0
    } else {
        weight_sum(taps.drop_last()) + taps.last().0
    }
}

/// Each weight of `taps` times the sample it reads, summed.
pub open spec fn weight_moment(taps: Seq<(u32, usize)>) -> int
    decreases taps.len(),
{
    if taps.len() == 0 {
        0
    } else {
        weight_moment(taps.drop_last()) + taps.last().0 * taps.last().1
    }
}

/// Twice the source coordinate on which destination `d` centres the kernel,
/// doubled again for decimation: `4d` there, `d` for interpolation.
pub open spec fn doubled_centre(pass: Taps, d: int) -> int {
    match pass {
        Taps::Decimate => 4 * d,
        Taps::Interpolate => d,
    }
}

proof fn lemma_blends_exactly<F: Fn(u32, Vec<(u32, i64)>) -> i64>(
    blend: F,
    gain: u32,
    taps: Seq<(u32, i64)>,
    r: i64,
)
    requires
        sums_exactly(blend),
        blends(blend, gain, taps, r),
    ensures
        r == gain * weighted_total(taps),
{
    let given = choose|given: Vec<(u32, i64)>|
        given@ == taps && #[trigger] call_ensures(blend, (gain, given), r);
    assert(call_ensures(blend, (gain, given), r));
}

/// A row's samples at the columns, weighted, are the row's weight times their
/// sum weighted by the columns alone.
proof fn lemma_row_total_factors(src: PlaneView<i64>, row: (u32, usize), columns: Seq<(u32, usize)>)
    ensures
        row_total(src, row, columns) == row.0 * row_total(src, (1u32, row.1), columns),
    decreases columns.len(),
{
    if columns.len() > 0 {
        lemma_row_total_factors(src, row, columns.drop_last());
        let a = row_total(src, (1u32, row.1), columns.drop_last());
        let w = columns.last().0 as int;
        let s = src.at(columns.last().1 as int, row.1 as int) as int;
        let r = row.0 as int;
        assert(r * a + (r * w) * s == r * (a + (1 * w) * s)) by (nonlinear_arith);
    }
}

/// Filtering a row exactly sums its samples at the taps' columns.
proof fn lemma_line_total(src: PlaneView<i64>, r: int, columns: Seq<(u32, usize)>)
    requires
        src.wf(),
        0 <= r < src.height <= usize::MAX,
        forall|k: int| 0 <= k < columns.len() ==> (#[trigger] columns[k]).1 < src.width,
    ensures
        weighted_total(samples_at(src.row(r), columns)) == row_total(src, (1u32, r as usize), columns),
    decreases columns.len(),
{
    lemma_row_in_bounds(r, src.width as int, src.height as int);
    if columns.len() > 0 {
        let shorter = columns.drop_last();
        assert(samples_at(src.row(r), columns).drop_last() =~= samples_at(src.row(r), shorter));
        lemma_line_total(src, r, shorter);
        let last = columns.last();
        assert(columns[columns.len() - 1] == last);
        assert(src.row(r)[last.1 as int] == src.at(last.1 as int, r));
    }
}

/// Blending filtered rows exactly sums the unfactored kernel.
proof fn lemma_column_total(
    src: PlaneView<i64>,
    rows: Seq<(u32, usize)>,
    columns: Seq<(u32, usize)>,
    values: Seq<i64>,
    gain: u32,
)
    requires
        values.len() == rows.len(),
        forall|j: int|
            0 <= j < rows.len() ==> #[trigger] values[j] == gain * row_total(
                src,
                (1u32, rows[j].1),
                columns,
            ),
    ensures
        weighted_total(weighted(rows, values)) == gain * kernel_total(src, rows, columns),
    decreases rows.len(),
{
    if rows.len() > 0 {
        let n = rows.len() - 1;
        assert(weighted(rows, values).drop_last() =~= weighted(
            rows.drop_last(),
            values.drop_last(),
        ));
        lemma_column_total(src, rows.drop_last(), columns, values.drop_last(), gain);
        lemma_row_total_factors(src, rows[n], columns);
        assert(rows.last() == rows[n]);
        let inner = row_total(src, (1u32, rows[n].1), columns);
        let k = kernel_total(src, rows.drop_last(), columns);
        let w = rows[n].0 as int;
        let g = gain as int;
        assert(values[n] == g * inner);
        assert(g * k + w * (g * inner) == g * (k + w * inner)) by (nonlinear_arith);
    }
}

/// Factoring the kernel into a pass along the rows and a pass down the
/// columns does not change the answer: with an exact weighted-sum blend, each
/// resampled sample is the unfactored kernel over the two axes' taps, times
/// the gain of both passes.
pub proof fn lemma_separable_passes_equal_the_kernel<F: Fn(u32, Vec<(u32, i64)>) -> i64>(
    src: PlaneView<i64>,
    pass: Taps,
    border: Border,
    blend: F,
    dst: PlaneView<i64>,
    x: int,
    y: int,
)
    requires
        sums_exactly(blend),
        src.wf(),
        1 <= src.width <= usize::MAX,
        1 <= src.height <= usize::MAX,
        resampled(src, pass, border, blend, dst),
        0 <= x < dst.width,
        0 <= y < dst.height,
    ensures
        dst.at(x, y) == pass.spec_gain() * pass.spec_gain() * kernel_total(
            src,
            axis_taps(pass, src.height as int, border, y),
            axis_taps(pass, src.width as int, border, x),
        ),
{
    let g = pass.spec_gain();
    let rows = axis_taps(pass, src.height as int, border, y);
    let columns = axis_taps(pass, src.width as int, border, x);
    let v = dst.at(x, y);
    assert(resampled_at(src, pass, border, blend, x, y, v));
    lemma_taps_are_kernel_taps(pass, src.width as int, border, x, TAPS as int);
    lemma_taps_are_kernel_taps(pass, src.height as int, border, y, TAPS as int);
    assert forall|k: int| 0 <= k < columns.len() implies (#[trigger] columns[k]).1 < src.width by {
        assert(columns[k] == taps_upto(pass, src.width as int, border, x, TAPS as int)[k]);
    }
    let values = choose|values: Seq<i64>|
        {
            &&& values.len() == rows.len()
            &&& forall|k: int|
                0 <= k < rows.len() ==> filtered_at(
                    src,
                    pass,
                    border,
                    blend,
                    rows[k].1 as int,
                    x,
                    #[trigger] values[k],
                )
            &&& #[trigger] blends(blend, g, weighted(rows, values), v)
        };
    assert forall|j: int| 0 <= j < rows.len() implies #[trigger] values[j] == g * row_total(
        src,
        (1u32, rows[j].1),
        columns,
    ) by {
        assert(rows[j] == taps_upto(pass, src.height as int, border, y, TAPS as int)[j]);
        let r = rows[j].1 as int;
        assert(filtered_at(src, pass, border, blend, r, x, values[j]));
        lemma_blends_exactly(blend, g, samples_at(src.row(r), columns), values[j]);
        lemma_line_total(src, r, columns);
    }
    lemma_blends_exactly(blend, g, weighted(rows, values), v);
    lemma_column_total(src, rows, columns, values, g);
    let k = kernel_total(src, rows, columns);
    assert(g * (g * k) == g * g * k) by (nonlinear_arith);
}

/// Taps reading an affine function of their sample sum to the function's
/// offset times the weights plus its slope times the weighted samples.
proof fn lemma_affine_total(
    pairs: Seq<(u32, i64)>,
    taps: Seq<(u32, usize)>,
    alpha: int,
    beta: int,
)
    requires
        pairs.len() == taps.len(),
        forall|k: int|
            0 <= k < taps.len() ==> (#[trigger] pairs[k]).0 == taps[k].0 && pairs[k].1 == alpha
                + beta * taps[k].1,
    ensures
        weighted_total(pairs) == alpha * weight_sum(taps) + beta * weight_moment(taps),
    decreases taps.len(),
{
    if taps.len() > 0 {
        let n = taps.len() - 1;
        assert(pairs.drop_last().len() == taps.drop_last().len());
        assert forall|k: int| 0 <= k < taps.drop_last().len() implies (
        #[trigger] pairs.drop_last()[k]).0 == taps.drop_last()[k].0 && pairs.drop_last()[k].1
            == alpha + beta * taps.drop_last()[k].1 by {
            assert(pairs.drop_last()[k] == pairs[k]);
            assert(taps.drop_last()[k] == taps[k]);
        }
        lemma_affine_total(pairs.drop_last(), taps.drop_last(), alpha, beta);
        assert(pairs[n] == pairs.last());
        assert(taps[n] == taps.last());
        let w = taps[n].0 as int;
        let i = taps[n].1 as int;
        let ws = weight_sum(taps.drop_last());
        let m = weight_moment(taps.drop_last());
        assert(alpha * ws + beta * m + w * (alpha + beta * i) == alpha * (ws + w) + beta * (m + w
            * i)) by (nonlinear_arith);
    }
}

/// Inside the axis the kernel's weights, with the gain, sum to 16, and its
/// weighted samples to 8 times the doubled centre: the taps are symmetric
/// about the centre.
proof fn lemma_inside_sums(pass: Taps, len: int, border: Border, d: int)
    requires
        1 <= len <= usize::MAX,
        0 <= d,
        inside(pass, len, d),
    ensures
        pass.spec_gain() * weight_sum(axis_taps(pass, len, border, d)) == 16,
        pass.spec_gain() * weight_moment(axis_taps(pass, len, border, d)) == 8 * doubled_centre(
            pass,
            d,
        ),
{
    lemma_inside_needs_no_border(pass, len, border, d, TAPS as int);
    lemma_taps_are_kernel_taps(pass, len, border, d, TAPS as int);
    assert forall|k: int| 0 <= k < TAPS implies 0 <= #[trigger] tap_source(
        pass,
        len,
        border,
        d,
        k,
    ) < len by {}
    if pass == Taps::Decimate {
        lemma_decimate_inside_sums(len, border, d);
    } else {
        lemma_interpolate_inside_sums(len, border, d);
    }
}

/// One more tap: it joins the list when it reads a real sample.
pub proof fn lemma_tap_step(pass: Taps, len: int, border: Border, d: int, k: int)
    requires
        0 <= k,
    ensures
        taps_upto(pass, len, border, d, k + 1) == if pass.spec_contributes(
            pass.spec_coordinate(d, k),
        ) {
            taps_upto(pass, len, border, d, k).push(
                (kernel_weight(k), tap_source(pass, len, border, d, k) as usize),
            )
        } else {
            taps_upto(pass, len, border, d, k)
        },
{
}

proof fn lemma_decimate_inside_sums(len: int, border: Border, d: int)
    requires
        1 <= len <= usize::MAX,
        0 <= d,
        forall|k: int|
            0 <= k < TAPS ==> #[trigger] tap_source(Taps::Decimate, len, border, d, k) == 2 * d
                + k - 2,
        forall|k: int| 0 <= k < TAPS ==> 0 <= #[trigger] tap_source(Taps::Decimate, len, border, d, k) < len,
    ensures
        weight_sum(axis_taps(Taps::Decimate, len, border, d)) == 16,
        weight_moment(axis_taps(Taps::Decimate, len, border, d)) == 32 * d,
{
    let p = Taps::Decimate;
    assert(weight_sum(taps_upto(p, len, border, d, 0)) == 0);
    assert(weight_moment(taps_upto(p, len, border, d, 0)) == 0);
    let t0 = taps_upto(p, len, border, d, 0);
    lemma_tap_step(p, len, border, d, 0);
    lemma_tap_step(p, len, border, d, 1);
    lemma_tap_step(p, len, border, d, 2);
    lemma_tap_step(p, len, border, d, 3);
    lemma_tap_step(p, len, border, d, 4);
    assert(tap_source(p, len, border, d, 0) == 2 * d - 2);
    assert(tap_source(p, len, border, d, 1) == 2 * d - 1);
    assert(tap_source(p, len, border, d, 2) == 2 * d);
    assert(tap_source(p, len, border, d, 3) == 2 * d + 1);
    assert(tap_source(p, len, border, d, 4) == 2 * d + 2);
    lemma_moment_push(t0, 1u32, (2 * d - 2) as usize);
    let t1 = taps_upto(p, len, border, d, 1);
    lemma_moment_push(t1, 4u32, (2 * d - 1) as usize);
    let t2 = taps_upto(p, len, border, d, 2);
    lemma_moment_push(t2, 6u32, (2 * d) as usize);
    let t3 = taps_upto(p, len, border, d, 3);
    lemma_moment_push(t3, 4u32, (2 * d + 1) as usize);
    let t4 = taps_upto(p, len, border, d, 4);
    lemma_moment_push(t4, 1u32, (2 * d + 2) as usize);
}

proof fn lemma_interpolate_inside_sums(len: int, border: Border, d: int)
    requires
        1 <= len <= usize::MAX,
        0 <= d,
        forall|k: int|
            0 <= k < TAPS ==> 0 <= #[trigger] Taps::Interpolate.spec_coordinate(d, k) && tap_source(
                Taps::Interpolate,
                len,
                border,
                d,
                k,
            ) == Taps::Interpolate.spec_index(Taps::Interpolate.spec_coordinate(d, k)),
        forall|k: int|
            0 <= k < TAPS ==> 0 <= #[trigger] tap_source(Taps::Interpolate, len, border, d, k) < len,
    ensures
        2 * weight_sum(axis_taps(Taps::Interpolate, len, border, d)) == 16,
        2 * weight_moment(axis_taps(Taps::Interpolate, len, border, d)) == 8 * d,
{
    let p = Taps::Interpolate;
    let m = d / 2;
    vstd::arithmetic::div_mod::lemma_fundamental_div_mod(d, 2);
    let t0 = taps_upto(p, len, border, d, 0);
    assert(weight_sum(t0) == 0);
    assert(weight_moment(t0) == 0);
    lemma_tap_step(p, len, border, d, 0);
    lemma_tap_step(p, len, border, d, 1);
    lemma_tap_step(p, len, border, d, 2);
    lemma_tap_step(p, len, border, d, 3);
    lemma_tap_step(p, len, border, d, 4);
    let t1 = taps_upto(p, len, border, d, 1);
    let t2 = taps_upto(p, len, border, d, 2);
    let t3 = taps_upto(p, len, border, d, 3);
    let t4 = taps_upto(p, len, border, d, 4);
    assert(p.spec_coordinate(d, 0) == d - 2);
    assert(p.spec_coordinate(d, 1) == d - 1);
    assert(p.spec_coordinate(d, 2) == d);
    assert(p.spec_coordinate(d, 3) == d + 1);
    assert(p.spec_coordinate(d, 4) == d + 2);
    if d % 2 == 0 {
        vstd::arithmetic::div_mod::lemma_fundamental_div_mod_converse(d - 2, 2, m - 1, 0);
        vstd::arithmetic::div_mod::lemma_fundamental_div_mod_converse(d - 1, 2, m - 1, 1);
        vstd::arithmetic::div_mod::lemma_fundamental_div_mod_converse(d, 2, m, 0);
        vstd::arithmetic::div_mod::lemma_fundamental_div_mod_converse(d + 1, 2, m, 1);
        vstd::arithmetic::div_mod::lemma_fundamental_div_mod_converse(d + 2, 2, m + 1, 0);
        assert(tap_source(p, len, border, d, 0) == m - 1);
        assert(tap_source(p, len, border, d, 2) == m);
        assert(tap_source(p, len, border, d, 4) == m + 1);
        lemma_moment_push(t0, 1u32, (m - 1) as usize);
        lemma_moment_push(t2, 6u32, m as usize);
        lemma_moment_push(t4, 1u32, (m + 1) as usize);
    } else {
        vstd::arithmetic::div_mod::lemma_fundamental_div_mod_converse(d - 2, 2, m - 1, 1);
        vstd::arithmetic::div_mod::lemma_fundamental_div_mod_converse(d - 1, 2, m, 0);
        vstd::arithmetic::div_mod::lemma_fundamental_div_mod_converse(d, 2, m, 1);
        vstd::arithmetic::div_mod::lemma_fundamental_div_mod_converse(d + 1, 2, m + 1, 0);
        vstd::arithmetic::div_mod::lemma_fundamental_div_mod_converse(d + 2, 2, m + 1, 1);
        assert(tap_source(p, len, border, d, 1) == m);
        assert(tap_source(p, len, border, d, 3) == m + 1);
        lemma_moment_push(t1, 4u32, m as usize);
        lemma_moment_push(t3, 4u32, (m + 1) as usize);
    }
}

proof fn lemma_moment_push(taps: Seq<(u32, usize)>, w: u32, i: usize)
    ensures
        weight_sum(taps.push((w, i))) == weight_sum(taps) + w,
        weight_moment(taps.push((w, i))) == weight_moment(taps) + w * i,
{
    assert(taps.push((w, i)).drop_last() =~= taps);
}

/// The kernel reproduces affine signals: with an exact weighted-sum blend, a
/// plane whose sample at `(i, r)` is `a + b*i + c*r` resamples, at every
/// destination whose taps all land inside the source, to 128 times the
/// doubled affine value at the destination's centre, `2a + b*cx + c*cy` with
/// `cx`, `cy` the doubled centres: `reduce` samples the ramp at `(2x, 2y)`
/// and `expand` at `(x/2, y/2)`, times the kernel's unnormalised sum 256.
pub proof fn lemma_affine_planes_are_reproduced_inside<F: Fn(u32, Vec<(u32, i64)>) -> i64>(
    src: PlaneView<i64>,
    pass: Taps,
    border: Border,
    blend: F,
    dst: PlaneView<i64>,
    a: int,
    b: int,
    c: int,
    x: int,
    y: int,
)
    requires
        sums_exactly(blend),
        src.wf(),
        1 <= src.width <= usize::MAX,
        1 <= src.height <= usize::MAX,
        forall|i: int, r: int|
            0 <= i < src.width && 0 <= r < src.height ==> #[trigger] src.at(i, r) == a + b * i
                + c * r,
        resampled(src, pass, border, blend, dst),
        0 <= x < dst.width,
        0 <= y < dst.height,
        inside(pass, src.width as int, x),
        inside(pass, src.height as int, y),
    ensures
        dst.at(x, y) == 128 * (2 * a + b * doubled_centre(pass, x) + c * doubled_centre(pass, y)),
{
    let g = pass.spec_gain() as int;
    let rows = axis_taps(pass, src.height as int, border, y);
    let columns = axis_taps(pass, src.width as int, border, x);
    let v = dst.at(x, y);
    assert(resampled_at(src, pass, border, blend, x, y, v));
    lemma_taps_are_kernel_taps(pass, src.width as int, border, x, TAPS as int);
    lemma_taps_are_kernel_taps(pass, src.height as int, border, y, TAPS as int);
    lemma_inside_sums(pass, src.width as int, border, x);
    lemma_inside_sums(pass, src.height as int, border, y);
    let dx = doubled_centre(pass, x);
    let dy = doubled_centre(pass, y);
    let ws = weight_sum(columns);
    let ms = weight_moment(columns);
    let values = choose|values: Seq<i64>|
        {
            &&& values.len() == rows.len()
            &&& forall|k: int|
                0 <= k < rows.len() ==> filtered_at(
                    src,
                    pass,
                    border,
                    blend,
                    rows[k].1 as int,
                    x,
                    #[trigger] values[k],
                )
            &&& #[trigger] blends(blend, pass.spec_gain(), weighted(rows, values), v)
        };
    let big_a = 16 * a + 8 * b * dx;
    assert forall|j: int| 0 <= j < rows.len() implies (#[trigger] weighted(rows, values)[j]).0
        == rows[j].0 && weighted(rows, values)[j].1 == big_a + (16 * c) * rows[j].1 by {
        assert(rows[j] == taps_upto(pass, src.height as int, border, y, TAPS as int)[j]);
        let r = rows[j].1 as int;
        lemma_row_in_bounds(r, src.width as int, src.height as int);
        assert(filtered_at(src, pass, border, blend, r, x, values[j]));
        let line = samples_at(src.row(r), columns);
        lemma_blends_exactly(blend, pass.spec_gain(), line, values[j]);
        assert forall|k: int| 0 <= k < columns.len() implies (#[trigger] line[k]).0
            == columns[k].0 && line[k].1 == (a + c * r) + b * columns[k].1 by {
            assert(columns[k] == taps_upto(pass, src.width as int, border, x, TAPS as int)[k]);
            let i = columns[k].1 as int;
            assert(src.row(r)[i] == src.at(i, r));
        }
        lemma_affine_total(line, columns, a + c * r, b);
        assert(g * ((a + c * r) * ws + b * ms) == (a + c * r) * (g * ws) + b * (g * ms))
            by (nonlinear_arith);
        assert((a + c * r) * 16 + b * (8 * dx) == big_a + (16 * c) * r) by (nonlinear_arith)
            requires
                big_a == 16 * a + 8 * b * dx,
        ;
    }
    lemma_blends_exactly(blend, pass.spec_gain(), weighted(rows, values), v);
    lemma_affine_total(weighted(rows, values), rows, big_a, 16 * c);
    let wr = weight_sum(rows);
    let mr = weight_moment(rows);
    assert(g * (big_a * wr + (16 * c) * mr) == big_a * (g * wr) + (16 * c) * (g * mr))
        by (nonlinear_arith);
    assert(big_a * 16 + (16 * c) * (8 * dy) == 128 * (2 * a + b * dx + c * dy))
        by (nonlinear_arith)
        requires
            big_a == 16 * a + 8 * b * dx,
    ;
}

} // verus!
