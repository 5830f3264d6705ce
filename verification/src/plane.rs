use vstd::prelude::*;

verus! {

/// The sample in column `x` of row `y` of row-major `samples` with rows of `width`.
pub open spec fn cell<T>(samples: Seq<T>, width: int, x: int, y: int) -> T {
    samples[y * width + x]
}

/// What a plane holds: its dimensions and its samples, row-major.
#[verifier::ext_equal]
pub struct PlaneView<T> {
    pub width: nat,
    pub height: nat,
    pub samples: Seq<T>,
}

impl<T> PlaneView<T> {
    /// The samples account for every position of the grid, and no more.
    pub open spec fn wf(self) -> bool {
        self.samples.len() == self.width * self.height
    }

    /// The sample in column `x` of row `y`.
    pub open spec fn at(self, x: int, y: int) -> T {
        cell(self.samples, self.width as int, x, y)
    }

    /// Row `y`, as a sequence of `width` samples.
    pub open spec fn row(self, y: int) -> Seq<T> {
        self.samples.subrange(y * self.width, (y + 1) * self.width)
    }

    pub open spec fn same_size(self, other: PlaneView<T>) -> bool {
        self.width == other.width && self.height == other.height
    }
}

/// A single-channel image: row-major samples carried with their dimensions.
pub struct Plane<T> {
    data: Vec<T>,
    width: usize,
    height: usize,
}

impl<T> View for Plane<T> {
    type V = PlaneView<T>;

    closed spec fn view(&self) -> PlaneView<T> {
        PlaneView { width: self.width as nat, height: self.height as nat, samples: self.data@ }
    }
}

impl<T: Copy + Default> Plane<T> {
    /// A `width` by `height` plane holding `T`'s default value (zero for numbers)
    /// everywhere.
    pub fn zeros(width: usize, height: usize) -> (plane: Self)
        requires
            width * height <= usize::MAX,
        ensures
            plane@.width == width,
            plane@.height == height,
            plane@.wf(),
            exists|zero: T|
                call_ensures(T::default, (), zero) && forall|i: int|
                    0 <= i < plane@.samples.len() ==> plane@.samples[i] == zero,
    {
        let zero = T::default();
        let count = width * height;
        let mut data: Vec<T> = Vec::new();
        while data.len() < count
            invariant
                data.len() <= count,
                forall|i: int| 0 <= i < data.len() ==> data@[i] == zero,
            decreases count - data.len(),
        {
            data.push(zero);
        }
        Plane { data, width, height }
    }
}

impl<T: Copy> Clone for Plane<T> {
    fn clone(&self) -> (copy: Self)
        ensures
            copy@ == self@,
    {
        let mut data: Vec<T> = Vec::new();
        let mut i: usize = 0;
        while i < self.data.len()
            invariant
                i <= self.data.len(),
                data@ == self.data@.subrange(0, i as int),
            decreases self.data.len() - i,
        {
            data.push(self.data[i]);
            i = i + 1;
        }
        Plane { data, width: self.width, height: self.height }
    }
}

impl<T> Plane<T> {
    /// Carries `data` with its dimensions; the caller owes `width * height` samples.
    pub fn from_vec(data: Vec<T>, width: usize, height: usize) -> (plane: Self)
        requires
            data@.len() == width * height,
        ensures
            plane@ == (PlaneView { width: width as nat, height: height as nat, samples: data@ }),
            plane@.wf(),
    {
        Plane { data, width, height }
    }

    /// The sample in column `x` of row `y`. The position is read row-major, so
    /// it need only fall within the samples.
    pub fn sample(&self, x: usize, y: usize) -> (v: T) where T: Copy
        requires
            self@.wf(),
            y * self@.width + x < self@.samples.len(),
        ensures
            v == self@.at(x as int, y as int),
    {
        proof {
            vstd::arithmetic::mul::lemma_mul_nonnegative(y as int, self.width as int);
            assert(self.data@.len() == self.data.len());
        }
        let row_start = y * self.width;
        self.data[row_start + x]
    }

    pub fn width(&self) -> (w: usize)
        ensures
            w == self@.width,
    {
        self.width
    }

    pub fn height(&self) -> (h: usize)
        ensures
            h == self@.height,
    {
        self.height
    }

    pub fn as_slice(&self) -> (s: &[T])
        ensures
            s@ == self@.samples,
    {
        self.data.as_slice()
    }

    /// The samples, open to editing in place; the dimensions stay as they are.
    pub fn as_mut_slice(&mut self) -> (s: &mut [T])
        requires
            old(self)@.wf(),
        ensures
            s@ == old(self)@.samples,
            final(self)@ == (PlaneView { samples: final(s)@, ..old(self)@ }),
    {
        self.data.as_mut_slice()
    }
}

} // verus!
