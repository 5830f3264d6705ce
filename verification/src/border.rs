use vstd::prelude::*;

verus! {

/// How a filter reads past the edge of a plane.
#[derive(Clone, Copy, Debug, PartialEq, Eq, Structural)]
pub enum Border {
    /// `aaa|abcde|eee`
    Replicate,
    /// `dcb|abcde|dcb`, reflect-101. The only mode OpenCV's `pyrUp` accepts.
    Mirror,
}

/// The real sample standing in for `coord` on an axis of `len` samples.
///
/// An axis of at most one sample answers every coordinate with sample 0.
/// Replicate clamps into `0..len`; Mirror folds the coordinate with period
/// `2 * (len - 1)` and reflects the upper half back, so the edge sample is
/// never repeated.
pub open spec fn resolved(border: Border, coord: int, len: int) -> int {
    let last = len - 1;
    if last <= 0 {
        0
    } else {
        match border {
            Border::Replicate => if coord < 0 {
                0
            } else if coord > last {
                last
            } else {
                coord
            },
            Border::Mirror => {
                let folded = coord % (2 * last);
                if folded > last {
                    2 * last - folded
                } else {
                    folded
                }
            },
        }
    }
}

/// The lengths for which `Border::resolve` computes without overflow.
pub open spec fn resolvable(border: Border, len: int) -> bool {
    &&& len <= isize::MAX
    &&& border == Border::Mirror ==> 2 * (len - 1) <= isize::MAX
}

impl Border {
    /// The real sample standing in for `coord`, which may fall outside `0..len`.
    pub fn resolve(self, coord: isize, len: usize) -> (r: usize)
        requires
            resolvable(self, len as int),
        ensures
            r == resolved(self, coord as int, len as int),
            len >= 1 ==> r < len,
            0 <= coord < len ==> r == coord,
    {
        let last: isize = len as isize - 1;
        if last <= 0 {
            return 0;
        }
        match self {
            Border::Replicate => {
                if coord < 0 {
                    0
                } else if coord > last {
                    last as usize
                } else {
                    coord as usize
                }
            },
            Border::Mirror => {
                let period: isize = 2 * last;
                let folded: isize = match coord.checked_rem_euclid(period) {
                    Some(f) => f,
                    None => 0,
                };
                assert(folded == (coord as int) % (period as int));
                proof {
                    lemma_mirror_fold_in_range(coord as int, last as int);
                }
                if folded > last {
                    (period - folded) as usize
                } else {
                    folded as usize
                }
            },
        }
    }
}

/// Folding keeps a coordinate in `0..=last`, and leaves one already there alone.
proof fn lemma_mirror_fold_in_range(coord: int, last: int)
    requires
        last >= 1,
    ensures
        0 <= coord % (2 * last) < 2 * last,
        0 <= coord <= last ==> coord % (2 * last) == coord,
        0 <= resolved(Border::Mirror, coord, last + 1) <= last,
{
    vstd::arithmetic::div_mod::lemma_mod_bound(coord, 2 * last);
    if 0 <= coord <= last {
        vstd::arithmetic::div_mod::lemma_small_mod(coord as nat, (2 * last) as nat);
    }
}

/// Every coordinate resolves onto the axis, and a coordinate already on it
/// resolves to itself.
pub proof fn lemma_resolved_lands_on_the_axis(border: Border, coord: int, len: int)
    requires
        len >= 1,
    ensures
        0 <= resolved(border, coord, len) < len,
        0 <= coord < len ==> resolved(border, coord, len) == coord,
{
    if len >= 2 {
        if border == Border::Mirror {
            lemma_mirror_fold_in_range(coord, len - 1);
        }
    }
}

/// Replicate holds the edge sample for every coordinate past an edge.
pub proof fn lemma_replicate_holds_the_edge(coord: int, len: int)
    requires
        len >= 1,
    ensures
        coord < 0 ==> resolved(Border::Replicate, coord, len) == 0,
        coord >= len ==> resolved(Border::Replicate, coord, len) == len - 1,
{
}

/// Mirror reflects about the first sample and about the last one without
/// repeating either, and so repeats with period `2 * (len - 1)`.
pub proof fn lemma_mirror_reflects_about_both_edges(coord: int, len: int)
    requires
        len >= 2,
    ensures
        resolved(Border::Mirror, -coord, len) == resolved(Border::Mirror, coord, len),
        resolved(Border::Mirror, 2 * (len - 1) - coord, len) == resolved(
            Border::Mirror,
            coord,
            len,
        ),
        resolved(Border::Mirror, coord + 2 * (len - 1), len) == resolved(
            Border::Mirror,
            coord,
            len,
        ),
{
    let last = len - 1;
    let p = 2 * last;
    let m = coord % p;
    vstd::arithmetic::div_mod::lemma_fundamental_div_mod(coord, p);
    vstd::arithmetic::div_mod::lemma_mod_bound(coord, p);
    let q = coord / p;
    // -coord
    if m == 0 {
        assert(-coord == p * (-q) + 0) by (nonlinear_arith)
            requires
                coord == p * q + m,
                m == 0,
        ;
        vstd::arithmetic::div_mod::lemma_fundamental_div_mod_converse(-coord, p, -q, 0);
    } else {
        assert(-coord == p * (-q - 1) + (p - m)) by (nonlinear_arith)
            requires
                coord == p * q + m,
        ;
        vstd::arithmetic::div_mod::lemma_fundamental_div_mod_converse(-coord, p, -q - 1, p - m);
    }
    // p - coord
    if m == 0 {
        assert(p - coord == p * (1 - q) + 0) by (nonlinear_arith)
            requires
                coord == p * q + m,
                m == 0,
        ;
        vstd::arithmetic::div_mod::lemma_fundamental_div_mod_converse(p - coord, p, 1 - q, 0);
    } else {
        assert(p - coord == p * (-q) + (p - m)) by (nonlinear_arith)
            requires
                coord == p * q + m,
        ;
        vstd::arithmetic::div_mod::lemma_fundamental_div_mod_converse(p - coord, p, -q, p - m);
    }
    // coord + p
    assert(coord + p == p * (q + 1) + m) by (nonlinear_arith)
        requires
            coord == p * q + m,
    ;
    vstd::arithmetic::div_mod::lemma_fundamental_div_mod_converse(coord + p, p, q + 1, m);
}

/// Neighbouring coordinates resolve to samples at most one apart.
pub proof fn lemma_resolved_step(border: Border, coord: int, len: int)
    ensures
        -1 <= resolved(border, coord + 1, len) - resolved(border, coord, len) <= 1,
{
    let last = len - 1;
    if last >= 1 && border == Border::Mirror {
        let p = 2 * last;
        let m = coord % p;
        vstd::arithmetic::div_mod::lemma_fundamental_div_mod(coord, p);
        vstd::arithmetic::div_mod::lemma_mod_bound(coord, p);
        let q = coord / p;
        if m + 1 < p {
            assert(coord + 1 == p * q + (m + 1));
            vstd::arithmetic::div_mod::lemma_fundamental_div_mod_converse(coord + 1, p, q, m + 1);
        } else {
            assert(coord + 1 == p * (q + 1) + 0) by (nonlinear_arith)
                requires
                    coord == p * q + m,
                    m + 1 == p,
            ;
            vstd::arithmetic::div_mod::lemma_fundamental_div_mod_converse(coord + 1, p, q + 1, 0);
        }
    }
}

/// Resolution never pulls two coordinates further apart than they were.
pub proof fn lemma_resolved_is_one_lipschitz(border: Border, a: int, b: int, len: int)
    requires
        a <= b,
    ensures
        -(b - a) <= resolved(border, b, len) - resolved(border, a, len) <= b - a,
    decreases b - a,
{
    if a < b {
        lemma_resolved_is_one_lipschitz(border, a, b - 1, len);
        lemma_resolved_step(border, b - 1, len);
    }
}

} // verus!
