use vstd::prelude::*;

use crate::border::{resolved, resolvable, Border};
use crate::kernel::{kernel_weight, weight, Taps, TAPS};
use crate::plane::{Plane, PlaneView};

verus! {

/// The largest side the resampling passes address without overflowing an
/// `isize` coordinate: interpolation works on a grid twice the source's
/// length and reflects over twice that again.
pub open spec fn side_fits(len: int) -> bool {
    0 <= len && 4 * len + 16 <= isize::MAX
}

/// The source sample that tap `k` of `destination` reads on an axis of `len`.
pub open spec fn tap_source(pass: Taps, len: int, border: Border, destination: int, k: int) -> int {
    pass.spec_index(
        resolved(border, pass.spec_coordinate(destination, k), pass.spec_extent(len)),
    )
}

/// The contributing taps among the first `n`, in tap order: each with its
/// weight and the source sample it reads.
pub open spec fn taps_upto(pass: Taps, len: int, border: Border, destination: int, n: int) -> Seq<
    (u32, usize),
>
    decreases n,
{
    if n <= 0 {
        Seq::empty()
    } else {
        let before = taps_upto(pass, len, border, destination, n - 1);
        if pass.spec_contributes(pass.spec_coordinate(destination, n - 1)) {
            before.push(
                (kernel_weight(n - 1), tap_source(pass, len, border, destination, n - 1) as usize),
            )
        } else {
            before
        }
    }
}

/// Every tap of `destination` that reads a real sample, in tap order.
pub open spec fn axis_taps(pass: Taps, len: int, border: Border, destination: int) -> Seq<
    (u32, usize),
> {
    taps_upto(pass, len, border, destination, TAPS as int)
}

/// The taps paired with the samples of `line` that they read.
pub open spec fn samples_at<T>(line: Seq<T>, taps: Seq<(u32, usize)>) -> Seq<(u32, T)> {
    Seq::new(taps.len(), |k: int| (taps[k].0, line[taps[k].1 as int]))
}

/// `out` is what `blend` answers for `taps` at `gain`.
pub open spec fn blends<T, F: Fn(u32, Vec<(u32, T)>) -> T>(
    blend: F,
    gain: u32,
    taps: Seq<(u32, T)>,
    out: T,
) -> bool {
    exists|given: Vec<(u32, T)>| given@ == taps && #[trigger] call_ensures(blend, (gain, given), out)
}

/// `blend` may be called on anything.
pub open spec fn total<T, F: Fn(u32, Vec<(u32, T)>) -> T>(blend: F) -> bool {
    forall|gain: u32, taps: Vec<(u32, T)>| #[trigger] call_requires(blend, (gain, taps))
}

/// `blend` answers equal taps with equal values.
pub open spec fn deterministic<T, F: Fn(u32, Vec<(u32, T)>) -> T>(blend: F) -> bool {
    forall|gain: u32, a: Vec<(u32, T)>, b: Vec<(u32, T)>, r: T, s: T|
        a@ == b@ && #[trigger] call_ensures(blend, (gain, a), r) && #[trigger] call_ensures(
            blend,
            (gain, b),
            s,
        ) ==> r == s
}

/// A deterministic blend has one answer for the given taps.
pub proof fn lemma_blends_is_determined<T, F: Fn(u32, Vec<(u32, T)>) -> T>(
    blend: F,
    gain: u32,
    taps: Seq<(u32, T)>,
    r: T,
    s: T,
)
    requires
        deterministic(blend),
        blends(blend, gain, taps, r),
        blends(blend, gain, taps, s),
    ensures
        r == s,
{
    let a = choose|given: Vec<(u32, T)>|
        given@ == taps && #[trigger] call_ensures(blend, (gain, given), r);
    let b = choose|given: Vec<(u32, T)>|
        given@ == taps && #[trigger] call_ensures(blend, (gain, given), s);
    assert(call_ensures(blend, (gain, a), r));
    assert(call_ensures(blend, (gain, b), s));
}

/// `v` is column `x` of source row `r` filtered along the row.
pub open spec fn filtered_at<T, F: Fn(u32, Vec<(u32, T)>) -> T>(
    src: PlaneView<T>,
    pass: Taps,
    border: Border,
    blend: F,
    r: int,
    x: int,
    v: T,
) -> bool {
    blends(blend, pass.spec_gain(), samples_at(src.row(r), axis_taps(pass, src.width as int, border, x)), v)
}

/// Every tap of `destination` reads where it points, with no border to resolve.
pub open spec fn inside(pass: Taps, len: int, destination: int) -> bool {
    pass.spec_coordinate(destination, 0) >= 0 && pass.spec_coordinate(destination, TAPS - 1)
        < pass.spec_extent(len)
}

/// The destinations an axis may hold for a source axis of `len`.
pub open spec fn axis_ok(len: int, count: int) -> bool {
    &&& 1 <= len
    &&& side_fits(len)
    &&& 0 <= count
    &&& 2 * count + TAPS <= isize::MAX
}

pub proof fn lemma_row_in_bounds(r: int, width: int, height: int)
    requires
        0 <= r < height,
        0 <= width,
    ensures
        0 <= r * width,
        (r + 1) * width == r * width + width,
        (r + 1) * width <= height * width,
        (r + 1) * width <= width * height,
{
    assert(0 <= r * width) by (nonlinear_arith)
        requires
            0 <= r,
            0 <= width,
    ;
    assert((r + 1) * width == r * width + width) by (nonlinear_arith);
    assert((r + 1) * width <= height * width) by (nonlinear_arith)
        requires
            r + 1 <= height,
            0 <= width,
    ;
    assert(height * width == width * height) by (nonlinear_arith);
}

/// Each contributing tap is some tap `k` of the kernel, with its weight, and
/// reads a sample on the axis.
pub proof fn lemma_taps_are_kernel_taps(
    pass: Taps,
    len: int,
    border: Border,
    destination: int,
    n: int,
)
    requires
        1 <= len <= usize::MAX,
        0 <= n <= TAPS,
    ensures
        taps_upto(pass, len, border, destination, n).len() <= n,
        forall|j: int|
            0 <= j < taps_upto(pass, len, border, destination, n).len() ==> (
            #[trigger] taps_upto(pass, len, border, destination, n)[j]).1 < len,
        forall|j: int|
            0 <= j < taps_upto(pass, len, border, destination, n).len() ==> exists|k: int|
                0 <= k < n && pass.spec_contributes(pass.spec_coordinate(destination, k))
                    && #[trigger] taps_upto(pass, len, border, destination, n)[j] == (
                    kernel_weight(k),
                    tap_source(pass, len, border, destination, k) as usize,
                ),
        forall|k: int|
            0 <= k < n ==> 0 <= #[trigger] tap_source(pass, len, border, destination, k) < len,
    decreases n,
{
    if n > 0 {
        lemma_taps_are_kernel_taps(pass, len, border, destination, n - 1);
        let before = taps_upto(pass, len, border, destination, n - 1);
        let all = taps_upto(pass, len, border, destination, n);
        assert forall|k: int| 0 <= k < n implies 0 <= #[trigger] tap_source(
            pass,
            len,
            border,
            destination,
            k,
        ) < len by {
            let c = pass.spec_coordinate(destination, k);
            crate::border::lemma_resolved_lands_on_the_axis(border, c, pass.spec_extent(len));
        }
        assert forall|j: int| 0 <= j < all.len() implies exists|k: int|
            0 <= k < n && pass.spec_contributes(pass.spec_coordinate(destination, k))
                && #[trigger] all[j] == (
                kernel_weight(k),
                tap_source(pass, len, border, destination, k) as usize,
            ) by {
            if j < before.len() {
                assert(all[j] == before[j]);
            } else {
                let k = n - 1;
                assert(all[j] == (
                    kernel_weight(k),
                    tap_source(pass, len, border, destination, k) as usize,
                ));
            }
        }
        assert forall|j: int| 0 <= j < all.len() implies (#[trigger] all[j]).1 < len by {
            if j < before.len() {
                assert(all[j] == before[j]);
            } else {
                assert(0 <= tap_source(pass, len, border, destination, n - 1) < len);
            }
        }
    }
}

/// The samples that the taps of one destination read lie within four of each
/// other, so no two of them share a slot of a five-row window.
pub proof fn lemma_taps_are_close(pass: Taps, len: int, border: Border, destination: int)
    requires
        1 <= len <= usize::MAX,
    ensures
        forall|i: int, j: int|
            0 <= i < axis_taps(pass, len, border, destination).len() && 0 <= j < axis_taps(
                pass,
                len,
                border,
                destination,
            ).len() ==> -4 <= #[trigger] axis_taps(pass, len, border, destination)[i].1 as int
                - #[trigger] axis_taps(pass, len, border, destination)[j].1 as int <= 4,
{
    let taps = axis_taps(pass, len, border, destination);
    lemma_taps_are_kernel_taps(pass, len, border, destination, TAPS as int);
    assert forall|i: int, j: int|
        0 <= i < taps.len() && 0 <= j < taps.len() implies -4 <= #[trigger] taps[i].1 as int
        - #[trigger] taps[j].1 as int <= 4 by {
        let ki = choose|k: int|
            0 <= k < TAPS && pass.spec_contributes(pass.spec_coordinate(destination, k))
                && #[trigger] taps[i] == (
                kernel_weight(k),
                tap_source(pass, len, border, destination, k) as usize,
            );
        let kj = choose|k: int|
            0 <= k < TAPS && pass.spec_contributes(pass.spec_coordinate(destination, k))
                && #[trigger] taps[j] == (
                kernel_weight(k),
                tap_source(pass, len, border, destination, k) as usize,
            );
        let ci = pass.spec_coordinate(destination, ki);
        let cj = pass.spec_coordinate(destination, kj);
        let e = pass.spec_extent(len);
        if ci <= cj {
            crate::border::lemma_resolved_is_one_lipschitz(border, ci, cj, e);
        } else {
            crate::border::lemma_resolved_is_one_lipschitz(border, cj, ci, e);
        }
        let ri = resolved(border, ci, e);
        let rj = resolved(border, cj, e);
        crate::border::lemma_resolved_lands_on_the_axis(border, ci, e);
        crate::border::lemma_resolved_lands_on_the_axis(border, cj, e);
        assert(-4 <= ri - rj <= 4);
        assert(0 <= tap_source(pass, len, border, destination, ki) < len);
        assert(0 <= tap_source(pass, len, border, destination, kj) < len);
        if pass == Taps::Interpolate {
            assert(-4 <= ri / 2 - rj / 2 <= 4);
        }
    }
}

/// On a destination inside the axis every tap resolves to where it points.
pub proof fn lemma_inside_needs_no_border(
    pass: Taps,
    len: int,
    border: Border,
    destination: int,
    n: int,
)
    requires
        1 <= len,
        inside(pass, len, destination),
        0 <= n <= TAPS,
    ensures
        forall|k: int|
            0 <= k < TAPS ==> 0 <= #[trigger] pass.spec_coordinate(destination, k)
                < pass.spec_extent(len) && tap_source(pass, len, border, destination, k)
                == pass.spec_index(pass.spec_coordinate(destination, k)),
{
    assert forall|k: int| 0 <= k < TAPS implies 0 <= #[trigger] pass.spec_coordinate(
        destination,
        k,
    ) < pass.spec_extent(len) && tap_source(pass, len, border, destination, k)
        == pass.spec_index(pass.spec_coordinate(destination, k)) by {
        crate::border::lemma_resolved_lands_on_the_axis(
            border,
            pass.spec_coordinate(destination, k),
            pass.spec_extent(len),
        );
    }
}

/// The destinations whose taps all land inside the axis: `start..end`, or the
/// empty span at `count` when there are none. Border resolution costs an
/// integer division per tap, so the hot path avoids it there.
pub fn interior(pass: Taps, count: usize, len: usize) -> (span: (usize, usize))
    requires
        side_fits(len as int),
        2 * count + TAPS <= isize::MAX,
    ensures
        span.0 <= span.1 <= count,
        forall|d: int|
            0 <= d < count ==> (inside(pass, len as int, d) <==> span.0 <= d < span.1),
        span.0 == span.1 ==> span.0 == count,
{
    let extent = pass.extent(len) as isize;
    let mut start: usize = 0;
    while start < count && !(pass.coordinate(start, 0) >= 0 && pass.coordinate(start, TAPS - 1)
        < extent)
        invariant
            start <= count,
            2 * count + TAPS <= isize::MAX,
            side_fits(len as int),
            extent == pass.spec_extent(len as int),
            forall|d: int| 0 <= d < start ==> !inside(pass, len as int, d),
        decreases count - start,
    {
        start = start + 1;
    }
    let mut end: usize = start;
    while end < count && pass.coordinate(end, 0) >= 0 && pass.coordinate(end, TAPS - 1) < extent
        invariant
            start <= end <= count,
            2 * count + TAPS <= isize::MAX,
            side_fits(len as int),
            extent == pass.spec_extent(len as int),
            forall|d: int| start <= d < end ==> inside(pass, len as int, d),
        decreases count - end,
    {
        end = end + 1;
    }
    (start, end)
}

/// The contributing taps of `destination`, each resolved against the border.
pub fn bordered_taps(pass: Taps, len: usize, destination: usize, border: Border) -> (taps: Vec<
    (u32, usize),
>)
    requires
        1 <= len,
        side_fits(len as int),
        2 * destination + TAPS <= isize::MAX,
    ensures
        taps@ == axis_taps(pass, len as int, border, destination as int),
{
    let extent = pass.extent(len);
    let mut taps: Vec<(u32, usize)> = Vec::new();
    let mut tap: usize = 0;
    while tap < TAPS
        invariant
            tap <= TAPS,
            1 <= len,
            side_fits(len as int),
            2 * destination + TAPS <= isize::MAX,
            extent == pass.spec_extent(len as int),
            taps@ == taps_upto(pass, len as int, border, destination as int, tap as int),
        decreases TAPS - tap,
    {
        let coordinate = pass.coordinate(destination, tap);
        if pass.contributes(coordinate) {
            proof {
                crate::border::lemma_resolved_lands_on_the_axis(
                    border,
                    coordinate as int,
                    extent as int,
                );
            }
            let resolved_at = border.resolve(coordinate, extent);
            taps.push((weight(tap), pass.index(resolved_at)));
        }
        tap = tap + 1;
    }
    taps
}

/// The contributing taps of a destination inside the axis, read directly.
pub fn interior_taps(pass: Taps, len: usize, destination: usize) -> (taps: Vec<(u32, usize)>)
    requires
        1 <= len,
        side_fits(len as int),
        2 * destination + TAPS <= isize::MAX,
        inside(pass, len as int, destination as int),
    ensures
        forall|border: Border|
            taps@ == #[trigger] axis_taps(pass, len as int, border, destination as int),
{
    let mut taps: Vec<(u32, usize)> = Vec::new();
    let mut tap: usize = 0;
    while tap < TAPS
        invariant
            tap <= TAPS,
            1 <= len,
            side_fits(len as int),
            2 * destination + TAPS <= isize::MAX,
            inside(pass, len as int, destination as int),
            forall|border: Border|
                taps@ == #[trigger] taps_upto(pass, len as int, border, destination as int, tap as int),
        decreases TAPS - tap,
    {
        let coordinate = pass.coordinate(destination, tap);
        proof {
            lemma_inside_needs_no_border(
                pass,
                len as int,
                Border::Mirror,
                destination as int,
                TAPS as int,
            );
        }
        let ghost before = taps@;
        if pass.contributes(coordinate) {
            let entry = (weight(tap), pass.index(coordinate as usize));
            taps.push(entry);
            proof {
                assert forall|border: Border| taps@ == #[trigger] taps_upto(
                    pass,
                    len as int,
                    border,
                    destination as int,
                    tap + 1,
                ) by {
                    lemma_inside_needs_no_border(
                        pass,
                        len as int,
                        border,
                        destination as int,
                        TAPS as int,
                    );
                    assert(before == taps_upto(pass, len as int, border, destination as int, tap as int));
                    assert(tap_source(pass, len as int, border, destination as int, tap as int)
                        == pass.spec_index(coordinate as int));
                }
            }
        } else {
            proof {
                assert forall|border: Border| taps@ == #[trigger] taps_upto(
                    pass,
                    len as int,
                    border,
                    destination as int,
                    tap + 1,
                ) by {
                    assert(before == taps_upto(pass, len as int, border, destination as int, tap as int));
                }
            }
        }
        tap = tap + 1;
    }
    taps
}

/// The taps paired with the samples of `line` they read.
pub fn gather<T: Copy>(line: &[T], taps: &Vec<(u32, usize)>) -> (pairs: Vec<(u32, T)>)
    requires
        forall|k: int| 0 <= k < taps@.len() ==> (#[trigger] taps@[k]).1 < line@.len(),
    ensures
        pairs@ == samples_at(line@, taps@),
{
    let mut pairs: Vec<(u32, T)> = Vec::new();
    let mut k: usize = 0;
    while k < taps.len()
        invariant
            k <= taps@.len(),
            forall|j: int| 0 <= j < taps@.len() ==> (#[trigger] taps@[j]).1 < line@.len(),
            pairs@ == samples_at(line@, taps@).subrange(0, k as int),
        decreases taps@.len() - k,
    {
        let (w, i) = taps[k];
        pairs.push((w, line[i]));
        k = k + 1;
    }
    pairs
}

/// One row filtered along its length onto `width` destinations, each the blend
/// of the taps that reach it.
pub fn filter_row<T: Copy, F: Fn(u32, Vec<(u32, T)>) -> T>(
    source: &[T],
    width: usize,
    span: (usize, usize),
    pass: Taps,
    border: Border,
    blend: &F,
) -> (row: Vec<T>)
    requires
        axis_ok(source@.len() as int, width as int),
        forall|d: int|
            0 <= d < width ==> (inside(pass, source@.len() as int, d) <==> span.0 <= d < span.1),
        total(*blend),
    ensures
        row@.len() == width,
        forall|x: int|
            0 <= x < width ==> blends(
                *blend,
                pass.spec_gain(),
                samples_at(source@, axis_taps(pass, source@.len() as int, border, x)),
                #[trigger] row@[x],
            ),
{
    let len = source.len();
    let gain = pass.gain();
    let mut row: Vec<T> = Vec::new();
    let mut x: usize = 0;
    while x < width
        invariant
            x <= width,
            len == source@.len(),
            gain == pass.spec_gain(),
            axis_ok(len as int, width as int),
            forall|d: int|
                0 <= d < width ==> (inside(pass, len as int, d) <==> span.0 <= d < span.1),
            total(*blend),
            row@.len() == x,
            forall|j: int|
                0 <= j < x ==> blends(
                    *blend,
                    pass.spec_gain(),
                    samples_at(source@, axis_taps(pass, len as int, border, j)),
                    #[trigger] row@[j],
                ),
        decreases width - x,
    {
        let taps = if span.0 <= x && x < span.1 {
            interior_taps(pass, len, x)
        } else {
            bordered_taps(pass, len, x, border)
        };
        proof {
            lemma_taps_are_kernel_taps(pass, len as int, border, x as int, TAPS as int);
            assert(taps@ == axis_taps(pass, len as int, border, x as int));
            assert forall|k: int| 0 <= k < taps@.len() implies (#[trigger] taps@[k]).1 < len by {
                assert(taps@[k] == taps_upto(pass, len as int, border, x as int, TAPS as int)[k]);
            }
        }
        let pairs = gather(source, &taps);
        let ghost given = pairs;
        let value = blend(gain, pairs);
        proof {
            assert(call_ensures(*blend, (gain, given), value));
        }
        row.push(value);
        x = x + 1;
    }
    row
}

/// Two source rows within four of each other share a window slot only when
/// they are the same row.
pub proof fn lemma_close_rows_have_their_own_slots(a: int, b: int)
    requires
        0 <= a,
        0 <= b,
        -4 <= a - b <= 4,
        a % (TAPS as int) == b % (TAPS as int),
    ensures
        a == b,
{
    vstd::arithmetic::div_mod::lemma_fundamental_div_mod(a, TAPS as int);
    vstd::arithmetic::div_mod::lemma_fundamental_div_mod(b, TAPS as int);
}

/// A rolling window of rows filtered along their length, keyed by source row so
/// the pass down the columns never holds a full-plane intermediate. Row `r`
/// lives in slot `r % 5`.
pub struct FilteredRows<T> {
    pub rows: Vec<Vec<T>>,
    pub holds: Vec<Option<usize>>,
    pub width: usize,
}

impl<T> FilteredRows<T> {
    /// Whether source row `r` is in the window.
    pub open spec fn holds_row(&self, r: int) -> bool {
        self.holds@[r % (TAPS as int)] == Some(r as usize)
    }

    /// Every row in the window is its source row filtered along its length.
    pub open spec fn valid<F: Fn(u32, Vec<(u32, T)>) -> T>(
        &self,
        src: PlaneView<T>,
        pass: Taps,
        border: Border,
        blend: F,
    ) -> bool {
        &&& self.rows@.len() == TAPS
        &&& self.holds@.len() == TAPS
        &&& forall|s: int|
            0 <= s < TAPS ==> match #[trigger] self.holds@[s] {
                Some(r) => {
                    &&& r as int % (TAPS as int) == s
                    &&& r < src.height
                    &&& self.rows@[s]@.len() == self.width
                    &&& forall|x: int|
                        0 <= x < self.width ==> filtered_at(
                            src,
                            pass,
                            border,
                            blend,
                            r as int,
                            x,
                            #[trigger] self.rows@[s]@[x],
                        )
                },
                None => true,
            }
    }

    /// An empty window for rows of `width`.
    pub fn new(width: usize) -> (window: Self)
        ensures
            window.width == width,
            window.rows@.len() == TAPS,
            window.holds@.len() == TAPS,
            forall|s: int| 0 <= s < TAPS ==> window.holds@[s] is None,
    {
        let mut rows: Vec<Vec<T>> = Vec::new();
        let mut holds: Vec<Option<usize>> = Vec::new();
        let mut slot: usize = 0;
        while slot < TAPS
            invariant
                slot <= TAPS,
                rows@.len() == slot,
                holds@.len() == slot,
                forall|s: int| 0 <= s < slot ==> holds@[s] is None,
            decreases TAPS - slot,
        {
            rows.push(Vec::new());
            holds.push(None);
            slot = slot + 1;
        }
        FilteredRows { rows, holds, width }
    }

    /// Brings source row `source_row` into the window, filtering it unless it
    /// is there already. Only the row in its slot can be displaced.
    pub fn fetch<F: Fn(u32, Vec<(u32, T)>) -> T>(
        &mut self,
        source_row: usize,
        src: &Plane<T>,
        span: (usize, usize),
        pass: Taps,
        border: Border,
        blend: &F,
    ) where T: Copy
        requires
            old(self).valid(src@, pass, border, *blend),
            src@.wf(),
            source_row < src@.height,
            axis_ok(src@.width as int, old(self).width as int),
            forall|d: int|
                0 <= d < old(self).width ==> (inside(pass, src@.width as int, d) <==> span.0 <= d
                    < span.1),
            total(*blend),
        ensures
            final(self).valid(src@, pass, border, *blend),
            final(self).width == old(self).width,
            final(self).holds_row(source_row as int),
            forall|s: int|
                0 <= s < TAPS && s != source_row as int % (TAPS as int) ==> final(self).holds@[s]
                    == old(self).holds@[s],
    {
        let slot = source_row % TAPS;
        let held = match self.holds[slot] {
            Some(r) => r == source_row,
            None => false,
        };
        if !held {
            let src_width = src.width();
            let samples = src.as_slice();
            let sample_count = samples.len();
            proof {
                lemma_row_in_bounds(source_row as int, src_width as int, src@.height as int);
            }
            let row_start = source_row * src_width;
            let row_end = row_start + src_width;
            let source = vstd::slice::slice_subrange(samples, row_start, row_end);
            assert(source@ == src@.row(source_row as int));
            let row = filter_row(source, self.width, span, pass, border, blend);
            let ghost old_rows = self.rows@;
            let ghost old_holds = self.holds@;
            self.rows.set(slot, row);
            self.holds.set(slot, Some(source_row));
            proof {
                assert forall|s: int| 0 <= s < TAPS implies match #[trigger] self.holds@[s] {
                    Some(r) => {
                        &&& r as int % (TAPS as int) == s
                        &&& r < src@.height
                        &&& self.rows@[s]@.len() == self.width
                        &&& forall|x: int|
                            0 <= x < self.width ==> filtered_at(
                                src@,
                                pass,
                                border,
                                *blend,
                                r as int,
                                x,
                                #[trigger] self.rows@[s]@[x],
                            )
                    },
                    None => true,
                } by {
                    if s != slot as int {
                        assert(self.holds@[s] == old_holds[s]);
                        assert(self.rows@[s] == old_rows[s]);
                    }
                }
            }
        }
    }

    /// The filtered samples of source row `source_row`, which the window holds.
    pub fn row(&self, source_row: usize) -> (row: &Vec<T>)
        requires
            self.rows@.len() == TAPS,
            self.holds_row(source_row as int),
        ensures
            *row == self.rows@[source_row as int % (TAPS as int)],
    {
        &self.rows[source_row % TAPS]
    }
}

} // verus!
