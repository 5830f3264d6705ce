use vstd::prelude::*;

verus! {

/// Number of taps in the Burt & Adelson (1983) kernel.
pub const TAPS: usize = 5;

/// Half the kernel's width: taps reach this far either side of their centre.
pub const RADIUS: isize = 2;

/// Burt & Adelson (1983) with `a = 0.375`: `[1, 4, 6, 4, 1]`.
pub open spec fn kernel_weight(tap: int) -> u32 {
    if tap == 0 || tap == 4 {
        1
    } else if tap == 1 || tap == 3 {
        4
    } else {
        6
    }
}

/// The weight of `tap`.
pub fn weight(tap: usize) -> (w: u32)
    requires
        tap < TAPS,
    ensures
        w == kernel_weight(tap as int),
{
    if tap == 0 || tap == 4 {
        1
    } else if tap == 1 || tap == 3 {
        4
    } else {
        6
    }
}

/// The two ways the kernel is laid over a source axis.
#[derive(Clone, Copy, Debug, PartialEq, Eq, Structural)]
pub enum Taps {
    /// Blur then keep every second sample: destination `d` centres on source `2d`.
    Decimate,
    /// Insert a zero after every sample then blur: destination `d` centres on
    /// upsampled coordinate `d`, whose real samples sit at the even coordinates.
    Interpolate,
}

impl Taps {
    /// Half the taps of an interpolation land on inserted zeros and contribute
    /// nothing; the gain restores the energy they would have carried.
    pub open spec fn spec_gain(self) -> u32 {
        match self {
            Taps::Decimate => 1,
            Taps::Interpolate => 2,
        }
    }

    pub open spec fn spec_coordinate(self, destination: int, tap: int) -> int {
        match self {
            Taps::Decimate => 2 * destination + tap - RADIUS,
            Taps::Interpolate => destination + tap - RADIUS,
        }
    }

    /// The length of the grid the taps address for a source axis of `len`.
    pub open spec fn spec_extent(self, len: int) -> int {
        match self {
            Taps::Decimate => len,
            Taps::Interpolate => 2 * len,
        }
    }

    pub open spec fn spec_contributes(self, coordinate: int) -> bool {
        match self {
            Taps::Decimate => true,
            Taps::Interpolate => coordinate % 2 == 0,
        }
    }

    pub open spec fn spec_index(self, coordinate: int) -> int {
        match self {
            Taps::Decimate => coordinate,
            Taps::Interpolate => coordinate / 2,
        }
    }

    pub fn gain(self) -> (g: u32)
        ensures
            g == self.spec_gain(),
    {
        match self {
            Taps::Decimate => 1,
            Taps::Interpolate => 2,
        }
    }

    /// The grid coordinate that `tap` reads for `destination`.
    pub fn coordinate(self, destination: usize, tap: usize) -> (c: isize)
        requires
            tap < TAPS,
            2 * destination + TAPS <= isize::MAX,
        ensures
            c == self.spec_coordinate(destination as int, tap as int),
    {
        match self {
            Taps::Decimate => 2 * destination as isize + tap as isize - RADIUS,
            Taps::Interpolate => destination as isize + tap as isize - RADIUS,
        }
    }

    /// The far mirror axis of an interpolation sits on an inserted zero, so
    /// reflection there returns the last real sample rather than the one
    /// before it. OpenCV does the same.
    pub fn extent(self, len: usize) -> (e: usize)
        requires
            2 * len <= usize::MAX,
        ensures
            e == self.spec_extent(len as int),
    {
        match self {
            Taps::Decimate => len,
            Taps::Interpolate => 2 * len,
        }
    }

    /// Whether a tap at `coordinate` reads a real sample.
    pub fn contributes(self, coordinate: isize) -> (b: bool)
        ensures
            b == self.spec_contributes(coordinate as int),
    {
        match self {
            Taps::Decimate => true,
            Taps::Interpolate => coordinate.checked_rem_euclid(2) == Some(0isize),
        }
    }

    /// The source sample behind a resolved grid coordinate.
    pub fn index(self, coordinate: usize) -> (i: usize)
        ensures
            i == self.spec_index(coordinate as int),
    {
        match self {
            Taps::Decimate => coordinate,
            Taps::Interpolate => coordinate / 2,
        }
    }
}

} // verus!
