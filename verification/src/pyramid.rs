use vstd::prelude::*;

use crate::border::Border;
use crate::kernel::Taps;
use crate::ops::{
    expand, halved, keeps_constants, lemma_constant_survives_resampling,
    lemma_resampled_is_determined, reduce, resampled,
};
use crate::plane::{Plane, PlaneView};
use crate::rows::{deterministic, side_fits, total};

verus! {

/// `levels` is `src` and its successive halvings: each level is the one
/// before it reduced.
pub open spec fn gaussian_levels<T, F: Fn(u32, Vec<(u32, T)>) -> T>(
    src: PlaneView<T>,
    border: Border,
    blend: F,
    levels: Seq<PlaneView<T>>,
) -> bool {
    &&& levels.len() >= 1
    &&& levels[0] == src
    &&& forall|i: int|
        0 <= i < levels.len() - 1 ==> {
            &&& (#[trigger] levels[i + 1]).width == halved(levels[i].width as int)
            &&& levels[i + 1].height == halved(levels[i].height as int)
            &&& resampled(levels[i], Taps::Decimate, border, blend, levels[i + 1])
        }
}

/// `out` holds `op` of the samples of `left` and `right`, position by
/// position, at the size of `left`.
pub open spec fn combined<T, G: Fn(T, T) -> T>(
    op: G,
    left: PlaneView<T>,
    right: PlaneView<T>,
    out: PlaneView<T>,
) -> bool {
    &&& out.same_size(left)
    &&& out.samples.len() == left.samples.len()
    &&& forall|i: int|
        0 <= i < left.samples.len() ==> #[trigger] call_ensures(
            op,
            (left.samples[i], right.samples[i]),
            out.samples[i],
        )
}

/// `op` may be called on any two samples.
pub open spec fn total_pairwise<T, G: Fn(T, T) -> T>(op: G) -> bool {
    forall|a: T, b: T| #[trigger] call_requires(op, (a, b))
}

/// `op` of `left` and `right`, sample by sample, at the size of `left`.
pub fn combine<T: Copy, G: Fn(T, T) -> T>(left: &Plane<T>, right: &Plane<T>, op: &G) -> (out:
    Plane<T>)
    requires
        left@.wf(),
        right@.samples.len() >= left@.samples.len(),
        total_pairwise(*op),
    ensures
        out@.wf(),
        combined(*op, left@, right@, out@),
{
    let l = left.as_slice();
    let r = right.as_slice();
    let mut samples: Vec<T> = Vec::new();
    let mut i: usize = 0;
    while i < l.len()
        invariant
            i <= l@.len(),
            l@ == left@.samples,
            r@ == right@.samples,
            r@.len() >= l@.len(),
            total_pairwise(*op),
            samples@.len() == i,
            forall|j: int|
                0 <= j < i ==> #[trigger] call_ensures(*op, (l@[j], r@[j]), samples@[j]),
        decreases l@.len() - i,
    {
        let value = op(l[i], r[i]);
        samples.push(value);
        i = i + 1;
    }
    Plane::from_vec(samples, left.width(), left.height())
}

/// A plane and its successive halvings.
pub struct GaussianPyramid<T> {
    levels: Vec<Plane<T>>,
}

impl<T> View for GaussianPyramid<T> {
    type V = Seq<PlaneView<T>>;

    closed spec fn view(&self) -> Seq<PlaneView<T>> {
        self.levels@.map_values(|plane: Plane<T>| plane@)
    }
}

impl<T: Copy> GaussianPyramid<T> {
    /// `levels` counts reductions, so the result holds `levels + 1` planes.
    pub fn build<F: Fn(u32, Vec<(u32, T)>) -> T>(
        src: &Plane<T>,
        levels: usize,
        border: Border,
        blend: &F,
    ) -> (pyramid: Self)
        requires
            src@.wf(),
            side_fits(src@.width as int),
            side_fits(src@.height as int),
            levels < usize::MAX,
            total(*blend),
        ensures
            pyramid@.len() == levels + 1,
            gaussian_levels(src@, border, *blend, pyramid@),
            forall|i: int|
                0 <= i < pyramid@.len() ==> (#[trigger] pyramid@[i]).wf() && pyramid@[i].width
                    <= src@.width && pyramid@[i].height <= src@.height,
    {
        let mut planes: Vec<Plane<T>> = Vec::with_capacity(levels + 1);
        planes.push(src.clone());
        let mut done: usize = 0;
        while done < levels
            invariant
                done <= levels,
                planes@.len() == done + 1,
                src@.wf(),
                    side_fits(src@.width as int),
                side_fits(src@.height as int),
                total(*blend),
                gaussian_levels(src@, border, *blend, planes@.map_values(|p: Plane<T>| p@)),
                forall|i: int| 0 <= i < planes@.len() ==> (#[trigger] planes@[i])@.wf(),
                forall|i: int|
                    0 <= i < planes@.len() ==> (#[trigger] planes@[i])@.width <= src@.width
                        && planes@[i]@.height <= src@.height,
            decreases levels - done,
        {
            let ghost before = planes@.map_values(|p: Plane<T>| p@);
            let finer = &planes[done];
            let coarser = reduce(finer, border, blend);
            planes.push(coarser);
            proof {
                let after = planes@.map_values(|p: Plane<T>| p@);
                assert(after == before.push(coarser@));
                assert forall|i: int| 0 <= i < after.len() - 1 implies {
                    &&& (#[trigger] after[i + 1]).width == halved(after[i].width as int)
                    &&& after[i + 1].height == halved(after[i].height as int)
                    &&& resampled(after[i], Taps::Decimate, border, *blend, after[i + 1])
                } by {
                    if i < before.len() - 1 {
                        assert(after[i] == before[i]);
                        assert(after[i + 1] == before[i + 1]);
                    } else {
                        assert(after[i] == planes@[done as int]@);
                    }
                }
            }
            done = done + 1;
        }
        GaussianPyramid { levels: planes }
    }

    pub fn level(&self, index: usize) -> (level: &Plane<T>)
        requires
            index < self@.len(),
        ensures
            level@ == self@[index as int],
    {
        &self.levels[index]
    }

    pub fn len(&self) -> (n: usize)
        ensures
            n == self@.len(),
    {
        self.levels.len()
    }

    pub fn is_empty(&self) -> (empty: bool)
        ensures
            empty == (self@.len() == 0),
    {
        self.levels.len() == 0
    }
}

/// What a Laplacian pyramid holds: its bands, finest first, and its residual.
#[verifier::ext_equal]
pub struct LaplacianView<T> {
    pub bands: Seq<PlaneView<T>>,
    pub residual: PlaneView<T>,
}

impl<T> LaplacianView<T> {
    /// The plane that band `i` is collapsed onto: the next band, or the
    /// residual after the last one.
    pub open spec fn coarser(self, i: int) -> PlaneView<T> {
        if i + 1 < self.bands.len() {
            self.bands[i + 1]
        } else {
            self.residual
        }
    }

    /// Every band reduces to the size of the plane it collapses onto, so the
    /// pyramid can be collapsed.
    pub open spec fn consistent(self) -> bool {
        &&& self.residual.wf()
        &&& forall|i: int|
            0 <= i < self.bands.len() ==> {
                &&& (#[trigger] self.bands[i]).wf()
                &&& self.bands[i].width * self.bands[i].height <= usize::MAX
                &&& halved(self.bands[i].width as int) == self.coarser(i).width
                &&& halved(self.bands[i].height as int) == self.coarser(i).height
                &&& side_fits(self.coarser(i).width as int)
                &&& side_fits(self.coarser(i).height as int)
            }
    }
}

/// `band` is the detail of `finer` that `coarser` lacks: `finer` with
/// `coarser`, expanded back to its size, taken out by `subtract`.
pub open spec fn band_of<T, F: Fn(u32, Vec<(u32, T)>) -> T, G: Fn(T, T) -> T>(
    border: Border,
    blend: F,
    subtract: G,
    finer: PlaneView<T>,
    coarser: PlaneView<T>,
    band: PlaneView<T>,
) -> bool {
    exists|blurred: PlaneView<T>|
        {
            &&& blurred.same_size(finer)
            &&& resampled(coarser, Taps::Interpolate, border, blend, blurred)
            &&& #[trigger] combined(subtract, finer, blurred, band)
        }
}

/// `pyramid` is the Laplacian pyramid of `src` over `levels` reductions:
/// band `i` is the detail of Gaussian level `i`, and the residual is the
/// coarsest Gaussian level.
pub open spec fn laplacian_of<T, F: Fn(u32, Vec<(u32, T)>) -> T, G: Fn(T, T) -> T>(
    src: PlaneView<T>,
    levels: nat,
    border: Border,
    blend: F,
    subtract: G,
    pyramid: LaplacianView<T>,
) -> bool {
    exists|gaussian: Seq<PlaneView<T>>|
        {
            &&& gaussian.len() == levels + 1
            &&& #[trigger] gaussian_levels(src, border, blend, gaussian)
            &&& pyramid.bands.len() == levels
            &&& pyramid.residual == gaussian[levels as int]
            &&& forall|i: int|
                0 <= i < levels ==> band_of(
                    border,
                    blend,
                    subtract,
                    gaussian[i],
                    gaussian[i + 1],
                    #[trigger] pyramid.bands[i],
                )
        }
}

/// `out` is `bands` collapsed onto `residual`: starting from the residual,
/// each band from the coarsest to the finest gets the collapse so far
/// expanded to its size and put back by `add`.
pub open spec fn collapses<T, F: Fn(u32, Vec<(u32, T)>) -> T, G: Fn(T, T) -> T>(
    border: Border,
    blend: F,
    add: G,
    bands: Seq<PlaneView<T>>,
    residual: PlaneView<T>,
    out: PlaneView<T>,
) -> bool
    decreases bands.len(),
{
    if bands.len() == 0 {
        out == residual
    } else {
        exists|coarser: PlaneView<T>, blurred: PlaneView<T>|
            {
                &&& collapses(border, blend, add, bands.drop_first(), residual, coarser)
                &&& blurred.same_size(bands[0])
                &&& #[trigger] resampled(coarser, Taps::Interpolate, border, blend, blurred)
                &&& combined(add, bands[0], blurred, out)
            }
    }
}

/// Detail separated by scale, finest first, plus what is left once every scale
/// has been taken out.
pub struct LaplacianPyramid<T> {
    bands: Vec<Plane<T>>,
    residual: Plane<T>,
}

impl<T> View for LaplacianPyramid<T> {
    type V = LaplacianView<T>;

    closed spec fn view(&self) -> LaplacianView<T> {
        LaplacianView {
            bands: self.bands@.map_values(|plane: Plane<T>| plane@),
            residual: self.residual@,
        }
    }
}

impl<T: Copy> LaplacianPyramid<T> {
    /// Builds the Gaussian pyramid of `src` over `levels` reductions and keeps,
    /// for each level but the last, what `subtract` leaves of it once the next
    /// level, expanded back, is taken out.
    pub fn build<F: Fn(u32, Vec<(u32, T)>) -> T, G: Fn(T, T) -> T>(
        src: &Plane<T>,
        levels: usize,
        border: Border,
        blend: &F,
        subtract: &G,
    ) -> (pyramid: Self)
        requires
            src@.wf(),
            side_fits(src@.width as int),
            side_fits(src@.height as int),
            levels < usize::MAX,
            total(*blend),
            total_pairwise(*subtract),
        ensures
            laplacian_of(src@, levels as nat, border, *blend, *subtract, pyramid@),
            pyramid@.consistent(),
            pyramid@.bands.len() == levels,
    {
        let gaussian = GaussianPyramid::build(src, levels, border, blend);
        let ghost g = gaussian@;
        let mut bands: Vec<Plane<T>> = Vec::new();
        let mut index: usize = 0;
        while index < levels
            invariant
                index <= levels,
                gaussian@ == g,
                g.len() == levels + 1,
                gaussian_levels(src@, border, *blend, g),
                forall|i: int|
                    0 <= i < g.len() ==> (#[trigger] g[i]).wf() && g[i].width <= src@.width
                        && g[i].height <= src@.height,
                side_fits(src@.width as int),
                side_fits(src@.height as int),
                total(*blend),
                total_pairwise(*subtract),
                bands@.len() == index,
                forall|i: int|
                    0 <= i < index ==> band_of(
                        border,
                        *blend,
                        *subtract,
                        g[i],
                        g[i + 1],
                        (#[trigger] bands@[i])@,
                    ) && bands@[i]@.wf() && bands@[i]@.same_size(g[i]) && bands@[i]@.width
                        * bands@[i]@.height <= usize::MAX,
            decreases levels - index,
        {
            let finer = gaussian.level(index);
            let coarser = gaussian.level(index + 1);
            let finer_width = finer.width();
            let finer_height = finer.height();
            let finer_count = finer.as_slice().len();
            proof {
                assert(g[index + 1] == g[(index as int) + 1]);
            }
            let blurred = expand(coarser, finer_width, finer_height, border, blend);
            let band = combine(finer, &blurred, subtract);
            proof {
                assert(band_of(border, *blend, *subtract, g[index as int], g[index + 1], band@));
            }
            bands.push(band);
            index = index + 1;
        }
        let residual = gaussian.level(levels).clone();
        let pyramid = LaplacianPyramid { bands, residual };
        proof {
            let view = pyramid@;
            assert forall|i: int| 0 <= i < levels implies band_of(
                border,
                *blend,
                *subtract,
                g[i],
                g[i + 1],
                #[trigger] view.bands[i],
            ) by {
                assert(view.bands[i] == bands@[i]@);
            }
            assert forall|i: int| 0 <= i < view.bands.len() implies {
                &&& (#[trigger] view.bands[i]).wf()
                &&& view.bands[i].width * view.bands[i].height <= usize::MAX
                &&& halved(view.bands[i].width as int) == view.coarser(i).width
                &&& halved(view.bands[i].height as int) == view.coarser(i).height
                &&& side_fits(view.coarser(i).width as int)
                &&& side_fits(view.coarser(i).height as int)
            } by {
                assert(view.bands[i] == bands@[i]@);
                assert(view.coarser(i).same_size(g[i + 1]));
            }
        }
        pyramid
    }
}

impl<T: Copy> LaplacianPyramid<T> {
    pub fn band(&self, index: usize) -> (band: &Plane<T>)
        requires
            index < self@.bands.len(),
        ensures
            band@ == self@.bands[index as int],
    {
        &self.bands[index]
    }

    /// Band `index`, open to editing; the rest of the pyramid stays as it is.
    pub fn band_mut(&mut self, index: usize) -> (band: &mut Plane<T>)
        requires
            index < old(self)@.bands.len(),
        ensures
            band@ == old(self)@.bands[index as int],
            final(self)@ == (LaplacianView {
                bands: old(self)@.bands.update(index as int, final(band)@),
                residual: old(self)@.residual,
            }),
    {
        &mut self.bands[index]
    }

    pub fn residual(&self) -> (residual: &Plane<T>)
        ensures
            residual@ == self@.residual,
    {
        &self.residual
    }

    pub fn len(&self) -> (n: usize)
        ensures
            n == self@.bands.len(),
    {
        self.bands.len()
    }

    pub fn is_empty(&self) -> (empty: bool)
        ensures
            empty == (self@.bands.len() == 0),
    {
        self.bands.len() == 0
    }

    /// Sums the bands back: the residual expanded onto the coarsest band and
    /// put back by `add`, that expanded onto the next band, and so on to the
    /// finest.
    #[verifier::rlimit(40)]
    pub fn collapse<F: Fn(u32, Vec<(u32, T)>) -> T, G: Fn(T, T) -> T>(
        &self,
        border: Border,
        blend: &F,
        add: &G,
    ) -> (out: Plane<T>)
        requires
            self@.consistent(),
            total(*blend),
            total_pairwise(*add),
        ensures
            collapses(border, *blend, *add, self@.bands, self@.residual, out@),
            out@.wf(),
            out@.same_size(
                if self@.bands.len() == 0 {
                    self@.residual
                } else {
                    self@.bands[0]
                },
            ),
    {
        let ghost view = self@;
        let n = self.bands.len();
        let mut current = self.residual.clone();
        let mut i: usize = n;
        while i > 0
            invariant
                i <= n,
                n == view.bands.len(),
                view == self@,
                view.consistent(),
                total(*blend),
                total_pairwise(*add),
                current@.wf(),
                current@.same_size(
                    if i == n {
                        view.residual
                    } else {
                        view.bands[i as int]
                    },
                ),
                collapses(
                    border,
                    *blend,
                    *add,
                    view.bands.subrange(i as int, n as int),
                    view.residual,
                    current@,
                ),
            decreases i,
        {
            i = i - 1;
            let band = &self.bands[i];
            assert(band@ == view.bands[i as int]);
            let band_width = band.width();
            let band_height = band.height();
            let ghost coarser = current@;
            assert(view.coarser(i as int).same_size(current@));
            let blurred = expand(&current, band_width, band_height, border, blend);
            let next = combine(band, &blurred, add);
            proof {
                let rest = view.bands.subrange(i as int, n as int);
                assert(rest.drop_first() =~= view.bands.subrange(i + 1, n as int));
                assert(rest[0] == view.bands[i as int]);
                assert(resampled(coarser, Taps::Interpolate, border, *blend, blurred@));
                assert(collapses(border, *blend, *add, rest, view.residual, next@));
            }
            current = next;
        }
        proof {
            assert(view.bands.subrange(0, n as int) =~= view.bands);
        }
        current
    }
}

/// `add` puts back what `subtract` took out.
pub open spec fn undoes<T, G: Fn(T, T) -> T, H: Fn(T, T) -> T>(add: G, subtract: H) -> bool {
    forall|a: T, b: T, d: T, r: T|
        #[trigger] call_ensures(subtract, (a, b), d) && #[trigger] call_ensures(add, (d, b), r)
            ==> r == a
}

/// Collapsing the bands from `i` on onto the residual gives Gaussian level `i`.
proof fn lemma_collapse_restores_each_level<
    T,
    F: Fn(u32, Vec<(u32, T)>) -> T,
    G: Fn(T, T) -> T,
    H: Fn(T, T) -> T,
>(
    src: PlaneView<T>,
    levels: nat,
    border: Border,
    blend: F,
    subtract: H,
    add: G,
    pyramid: LaplacianView<T>,
    gaussian: Seq<PlaneView<T>>,
    i: int,
    out: PlaneView<T>,
)
    requires
        deterministic(blend),
        undoes(add, subtract),
        gaussian.len() == levels + 1,
        pyramid.bands.len() == levels,
        pyramid.residual == gaussian[levels as int],
        forall|j: int|
            0 <= j < levels ==> band_of(
                border,
                blend,
                subtract,
                gaussian[j],
                gaussian[j + 1],
                #[trigger] pyramid.bands[j],
            ),
        0 <= i <= levels,
        collapses(
            border,
            blend,
            add,
            pyramid.bands.subrange(i, levels as int),
            pyramid.residual,
            out,
        ),
    ensures
        out == gaussian[i],
    decreases levels - i,
{
    let rest = pyramid.bands.subrange(i, levels as int);
    if i < levels {
        let (coarser, blurred) = choose|coarser: PlaneView<T>, blurred: PlaneView<T>|
            {
                &&& collapses(border, blend, add, rest.drop_first(), pyramid.residual, coarser)
                &&& blurred.same_size(rest[0])
                &&& #[trigger] resampled(coarser, Taps::Interpolate, border, blend, blurred)
                &&& combined(add, rest[0], blurred, out)
            };
        assert(rest.drop_first() =~= pyramid.bands.subrange(i + 1, levels as int));
        lemma_collapse_restores_each_level(
            src,
            levels,
            border,
            blend,
            subtract,
            add,
            pyramid,
            gaussian,
            i + 1,
            coarser,
        );
        let band = pyramid.bands[i];
        assert(rest[0] == band);
        assert(band_of(border, blend, subtract, gaussian[i], gaussian[i + 1], band));
        let expected = choose|e: PlaneView<T>|
            {
                &&& e.same_size(gaussian[i])
                &&& resampled(gaussian[i + 1], Taps::Interpolate, border, blend, e)
                &&& #[trigger] combined(subtract, gaussian[i], e, band)
            };
        lemma_resampled_is_determined(
            gaussian[i + 1],
            Taps::Interpolate,
            border,
            blend,
            blurred,
            expected,
        );
        let level = gaussian[i];
        assert forall|j: int| 0 <= j < level.samples.len() implies out.samples[j]
            == level.samples[j] by {
            assert(call_ensures(subtract, (level.samples[j], expected.samples[j]), band.samples[j]));
            assert(call_ensures(add, (band.samples[j], blurred.samples[j]), out.samples[j]));
        }
        assert(out.samples =~= level.samples);
    }
}

/// Collapsing the Laplacian pyramid of a plane gives the plane back, whenever
/// `add` puts back what `subtract` takes out and `blend` is deterministic:
/// every expansion made while building is made again while collapsing, and
/// cancels.
pub proof fn lemma_collapse_restores_the_source<
    T,
    F: Fn(u32, Vec<(u32, T)>) -> T,
    G: Fn(T, T) -> T,
    H: Fn(T, T) -> T,
>(
    src: PlaneView<T>,
    levels: nat,
    border: Border,
    blend: F,
    subtract: H,
    add: G,
    pyramid: LaplacianView<T>,
    out: PlaneView<T>,
)
    requires
        deterministic(blend),
        undoes(add, subtract),
        laplacian_of(src, levels, border, blend, subtract, pyramid),
        collapses(border, blend, add, pyramid.bands, pyramid.residual, out),
    ensures
        out == src,
{
    let gaussian = choose|gaussian: Seq<PlaneView<T>>|
        {
            &&& gaussian.len() == levels + 1
            &&& #[trigger] gaussian_levels(src, border, blend, gaussian)
            &&& pyramid.bands.len() == levels
            &&& pyramid.residual == gaussian[levels as int]
            &&& forall|i: int|
                0 <= i < levels ==> band_of(
                    border,
                    blend,
                    subtract,
                    gaussian[i],
                    gaussian[i + 1],
                    #[trigger] pyramid.bands[i],
                )
        };
    assert(pyramid.bands.subrange(0, levels as int) =~= pyramid.bands);
    lemma_collapse_restores_each_level(
        src,
        levels,
        border,
        blend,
        subtract,
        add,
        pyramid,
        gaussian,
        0,
        out,
    );
}

/// When `blend` answers uniform taps with their value, every Gaussian level of
/// a plane holding one value everywhere holds that value everywhere.
pub proof fn lemma_constant_plane_keeps_every_level<T, F: Fn(u32, Vec<(u32, T)>) -> T>(
    src: PlaneView<T>,
    border: Border,
    blend: F,
    value: T,
    levels: Seq<PlaneView<T>>,
    i: int,
)
    requires
        keeps_constants(blend),
        src.wf(),
        1 <= src.width <= usize::MAX,
        1 <= src.height <= usize::MAX,
        forall|j: int| 0 <= j < src.samples.len() ==> src.samples[j] == value,
        gaussian_levels(src, border, blend, levels),
        0 <= i < levels.len(),
    ensures
        levels[i].wf(),
        1 <= levels[i].width <= src.width,
        1 <= levels[i].height <= src.height,
        forall|j: int| 0 <= j < levels[i].samples.len() ==> levels[i].samples[j] == value,
    decreases i,
{
    if i > 0 {
        lemma_constant_plane_keeps_every_level(src, border, blend, value, levels, i - 1);
        let k = i - 1;
        assert(levels[k + 1].width == halved(levels[k].width as int));
        assert(resampled(levels[k], Taps::Decimate, border, blend, levels[k + 1]));
        lemma_constant_survives_resampling(
            levels[i - 1],
            Taps::Decimate,
            border,
            blend,
            value,
            levels[i],
        );
    }
}

/// A plane holding one value everywhere leaves nothing in its bands: when
/// `blend` answers uniform taps with their value and `subtract` takes that
/// value from itself to leave `zero`, every sample of every band is `zero`.
pub proof fn lemma_constant_plane_leaves_every_band_empty<
    T,
    F: Fn(u32, Vec<(u32, T)>) -> T,
    H: Fn(T, T) -> T,
>(
    src: PlaneView<T>,
    levels: nat,
    border: Border,
    blend: F,
    subtract: H,
    value: T,
    zero: T,
    pyramid: LaplacianView<T>,
)
    requires
        keeps_constants(blend),
        forall|r: T| #[trigger] call_ensures(subtract, (value, value), r) ==> r == zero,
        src.wf(),
        1 <= src.width <= usize::MAX,
        1 <= src.height <= usize::MAX,
        forall|j: int| 0 <= j < src.samples.len() ==> src.samples[j] == value,
        laplacian_of(src, levels, border, blend, subtract, pyramid),
    ensures
        forall|i: int, j: int|
            0 <= i < pyramid.bands.len() && 0 <= j < pyramid.bands[i].samples.len()
                ==> #[trigger] pyramid.bands[i].samples[j] == zero,
{
    let gaussian = choose|gaussian: Seq<PlaneView<T>>|
        {
            &&& gaussian.len() == levels + 1
            &&& #[trigger] gaussian_levels(src, border, blend, gaussian)
            &&& pyramid.bands.len() == levels
            &&& pyramid.residual == gaussian[levels as int]
            &&& forall|i: int|
                0 <= i < levels ==> band_of(
                    border,
                    blend,
                    subtract,
                    gaussian[i],
                    gaussian[i + 1],
                    #[trigger] pyramid.bands[i],
                )
        };
    assert forall|i: int, j: int|
        0 <= i < pyramid.bands.len() && 0 <= j < pyramid.bands[i].samples.len()
            implies #[trigger] pyramid.bands[i].samples[j] == zero by {
        let band = pyramid.bands[i];
        assert(band_of(border, blend, subtract, gaussian[i], gaussian[i + 1], band));
        let blurred = choose|blurred: PlaneView<T>|
            {
                &&& blurred.same_size(gaussian[i])
                &&& resampled(gaussian[i + 1], Taps::Interpolate, border, blend, blurred)
                &&& #[trigger] combined(subtract, gaussian[i], blurred, band)
            };
        lemma_constant_plane_keeps_every_level(src, border, blend, value, gaussian, i);
        lemma_constant_plane_keeps_every_level(src, border, blend, value, gaussian, i + 1);
        lemma_constant_survives_resampling(
            gaussian[i + 1],
            Taps::Interpolate,
            border,
            blend,
            value,
            blurred,
        );
        assert(call_ensures(
            subtract,
            (gaussian[i].samples[j], blurred.samples[j]),
            band.samples[j],
        ));
    }
}

/// `op` answers equal samples with equal values.
pub open spec fn deterministic_pairwise<T, G: Fn(T, T) -> T>(op: G) -> bool {
    forall|a: T, b: T, r: T, s: T|
        #[trigger] call_ensures(op, (a, b), r) && #[trigger] call_ensures(op, (a, b), s) ==> r
            == s
}

/// With a deterministic blend, each Gaussian level above the source is what
/// `reduce` gives for the level before it.
pub proof fn lemma_gaussian_level_is_the_reduction<T, F: Fn(u32, Vec<(u32, T)>) -> T>(
    src: PlaneView<T>,
    border: Border,
    blend: F,
    levels: Seq<PlaneView<T>>,
    i: int,
    reduced: PlaneView<T>,
)
    requires
        deterministic(blend),
        gaussian_levels(src, border, blend, levels),
        0 <= i < levels.len() - 1,
        reduced.width == halved(levels[i].width as int),
        reduced.height == halved(levels[i].height as int),
        resampled(levels[i], Taps::Decimate, border, blend, reduced),
    ensures
        reduced == levels[i + 1],
{
    assert(levels[i + 1].width == halved(levels[i].width as int));
    lemma_resampled_is_determined(levels[i], Taps::Decimate, border, blend, reduced, levels[i + 1]);
}

/// Planes combined by a deterministic `op` from the same planes are the same.
pub proof fn lemma_combined_is_determined<T, G: Fn(T, T) -> T>(
    op: G,
    left: PlaneView<T>,
    right: PlaneView<T>,
    a: PlaneView<T>,
    b: PlaneView<T>,
)
    requires
        deterministic_pairwise(op),
        combined(op, left, right, a),
        combined(op, left, right, b),
    ensures
        a == b,
{
    assert forall|i: int| 0 <= i < a.samples.len() implies a.samples[i] == b.samples[i] by {
        assert(call_ensures(op, (left.samples[i], right.samples[i]), a.samples[i]));
        assert(call_ensures(op, (left.samples[i], right.samples[i]), b.samples[i]));
    }
    assert(a.samples =~= b.samples);
}

/// With a deterministic blend and a deterministic `subtract`, a band is what
/// `subtract` leaves of its level once the next level is expanded back onto
/// it by `expand`.
pub proof fn lemma_band_is_level_less_expansion<
    T,
    F: Fn(u32, Vec<(u32, T)>) -> T,
    H: Fn(T, T) -> T,
>(
    border: Border,
    blend: F,
    subtract: H,
    finer: PlaneView<T>,
    coarser: PlaneView<T>,
    band: PlaneView<T>,
    expanded: PlaneView<T>,
    out: PlaneView<T>,
)
    requires
        deterministic(blend),
        deterministic_pairwise(subtract),
        band_of(border, blend, subtract, finer, coarser, band),
        expanded.same_size(finer),
        resampled(coarser, Taps::Interpolate, border, blend, expanded),
        combined(subtract, finer, expanded, out),
    ensures
        out == band,
{
    let blurred = choose|blurred: PlaneView<T>|
        {
            &&& blurred.same_size(finer)
            &&& resampled(coarser, Taps::Interpolate, border, blend, blurred)
            &&& #[trigger] combined(subtract, finer, blurred, band)
        };
    lemma_resampled_is_determined(coarser, Taps::Interpolate, border, blend, blurred, expanded);
    lemma_combined_is_determined(subtract, finer, expanded, band, out);
}

/// With a deterministic blend and a deterministic `add`, collapsing has one
/// outcome.
pub proof fn lemma_collapses_is_determined<T, F: Fn(u32, Vec<(u32, T)>) -> T, G: Fn(T, T) -> T>(
    border: Border,
    blend: F,
    add: G,
    bands: Seq<PlaneView<T>>,
    residual: PlaneView<T>,
    a: PlaneView<T>,
    b: PlaneView<T>,
)
    requires
        deterministic(blend),
        deterministic_pairwise(add),
        collapses(border, blend, add, bands, residual, a),
        collapses(border, blend, add, bands, residual, b),
    ensures
        a == b,
    decreases bands.len(),
{
    if bands.len() > 0 {
        let (ca, ea) = choose|coarser: PlaneView<T>, blurred: PlaneView<T>|
            {
                &&& collapses(border, blend, add, bands.drop_first(), residual, coarser)
                &&& blurred.same_size(bands[0])
                &&& #[trigger] resampled(coarser, Taps::Interpolate, border, blend, blurred)
                &&& combined(add, bands[0], blurred, a)
            };
        let (cb, eb) = choose|coarser: PlaneView<T>, blurred: PlaneView<T>|
            {
                &&& collapses(border, blend, add, bands.drop_first(), residual, coarser)
                &&& blurred.same_size(bands[0])
                &&& #[trigger] resampled(coarser, Taps::Interpolate, border, blend, blurred)
                &&& combined(add, bands[0], blurred, b)
            };
        lemma_collapses_is_determined(border, blend, add, bands.drop_first(), residual, ca, cb);
        lemma_resampled_is_determined(ca, Taps::Interpolate, border, blend, ea, eb);
        lemma_combined_is_determined(add, bands[0], ea, a, b);
    }
}

/// With a deterministic blend and a deterministic `add`, collapsing bands onto
/// a residual gives the first band put back by `add` onto what `expand` makes,
/// at its size, of the rest collapsed: the collapse is the fold of `expand`
/// and `add` from the coarsest band down.
pub proof fn lemma_collapse_is_expand_then_add<
    T,
    F: Fn(u32, Vec<(u32, T)>) -> T,
    G: Fn(T, T) -> T,
>(
    border: Border,
    blend: F,
    add: G,
    bands: Seq<PlaneView<T>>,
    residual: PlaneView<T>,
    out: PlaneView<T>,
    rest: PlaneView<T>,
    expanded: PlaneView<T>,
    other: PlaneView<T>,
)
    requires
        deterministic(blend),
        deterministic_pairwise(add),
        bands.len() > 0,
        collapses(border, blend, add, bands, residual, out),
        collapses(border, blend, add, bands.drop_first(), residual, rest),
        expanded.same_size(bands[0]),
        resampled(rest, Taps::Interpolate, border, blend, expanded),
        combined(add, bands[0], expanded, other),
    ensures
        other == out,
{
    assert(resampled(rest, Taps::Interpolate, border, blend, expanded));
    assert(collapses(border, blend, add, bands, residual, other));
    lemma_collapses_is_determined(border, blend, add, bands, residual, other, out);
}

} // verus!
