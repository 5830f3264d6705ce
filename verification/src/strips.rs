use vstd::prelude::*;

use crate::kernel::TAPS;

verus! {

/// How many rows each strip of an output `height` rows tall takes when the
/// strips are computed one after another: all of them, in one strip.
pub fn rows_per_strip(height: usize) -> (rows: usize)
    ensures
        rows == if height == 0 {
            1
        } else {
            height
        },
{
    if height == 0 {
        1
    } else {
        height
    }
}

/// Rows per strip when the strips go to a pool of `threads` threads: each
/// thread's share split four ways, which trades a little refiltering at the
/// strips' edges for resilience to uneven scheduling, and never fewer rows
/// than the kernel spans.
pub open spec fn rows_per_strip_for(height: int, threads: int) -> int {
    let split = 4 * threads;
    let share = (height + split - 1) / split;
    if share > TAPS {
        share
    } else {
        TAPS as int
    }
}

/// `rows_per_strip_for(height, threads)`.
pub fn rows_per_strip_across(height: usize, threads: usize) -> (rows: usize)
    requires
        1 <= threads <= 0xffff,
    ensures
        rows == rows_per_strip_for(height as int, threads as int),
{
    let split = 4 * threads;
    proof {
        vstd::arithmetic::div_mod::lemma_fundamental_div_mod(height as int, split as int);
        let q = height as int / split as int;
        let r = height as int % split as int;
        assert(q * split == split * q) by (nonlinear_arith);
        assert(q < usize::MAX) by (nonlinear_arith)
            requires
                height == split * q + r,
                0 <= r,
                split >= 4,
                height <= usize::MAX,
        ;
        assert((q + 1) * split == q * split + split) by (nonlinear_arith);
        if r == 0 {
            vstd::arithmetic::div_mod::lemma_fundamental_div_mod_converse(
                height + split - 1,
                split as int,
                q,
                split - 1,
            );
        } else {
            vstd::arithmetic::div_mod::lemma_fundamental_div_mod_converse(
                height + split - 1,
                split as int,
                q + 1,
                r - 1,
            );
        }
    }
    let carry: usize = if height % split == 0 {
        0
    } else {
        1
    };
    let share = height / split + carry;
    if share > TAPS {
        share
    } else {
        TAPS
    }
}

/// `rayon::current_num_threads`: the number of threads of the pool the caller
/// runs in, or of the global pool outside one. Rayon builds every pool with at
/// least one thread and at most `rayon::max_num_threads()`, which is below
/// 2^16, so the count lies in `1..=0xffff`. Which count it is depends on the
/// machine and the environment, and is not stated. Rayon panics here if the
/// global pool cannot be started.
#[verifier::external_body]
fn current_num_threads() -> (threads: usize)
    ensures
        1 <= threads <= 0xffff,
{
    rayon::current_num_threads()
}

/// Rows per strip for strips handed to the current rayon pool.
pub fn pool_rows_per_strip(height: usize) -> (rows: usize)
    ensures
        rows >= TAPS,
        exists|threads: int|
            1 <= threads <= 0xffff && rows == rows_per_strip_for(height as int, threads),
{
    let threads = current_num_threads();
    rows_per_strip_across(height, threads)
}

/// The strips of `strip_height` rows that tile an output `height` rows tall,
/// in order, as `(top, rows)`: strip `k` starts at row `k * strip_height` and
/// takes `strip_height` rows, or what is left of the output for the last one.
pub fn strip_spans(height: usize, strip_height: usize) -> (spans: Vec<(usize, usize)>)
    requires
        strip_height >= 1,
    ensures
        spans@.len() == (height + strip_height - 1) / strip_height as int,
        forall|k: int|
            0 <= k < spans@.len() ==> (#[trigger] spans@[k]).0 == k * strip_height && spans@[k].1
                == if strip_height <= height - k * strip_height {
                strip_height as int
            } else {
                height - k * strip_height
            },
{
    let mut spans: Vec<(usize, usize)> = Vec::new();
    let mut top: usize = 0;
    proof {
        assert(0 * strip_height == 0);
        if height == 0 {
            assert((strip_height - 1) / strip_height as int == 0) by (nonlinear_arith)
                requires
                    strip_height >= 1,
            ;
        } else {
            assert((height + strip_height - 1) / strip_height as int >= 1) by (nonlinear_arith)
                requires
                    strip_height >= 1,
                    height >= 1,
            ;
        }
    }
    while top < height
        invariant
            strip_height >= 1,
            top <= height,
            top == height || top == spans@.len() * strip_height,
            top < height ==> (height + strip_height - 1) / strip_height as int > spans@.len(),
            top >= height ==> (height + strip_height - 1) / strip_height as int == spans@.len(),
            forall|k: int|
                0 <= k < spans@.len() ==> (#[trigger] spans@[k]).0 == k * strip_height
                    && spans@[k].1 == if strip_height <= height - k * strip_height {
                    strip_height as int
                } else {
                    height - k * strip_height
                },
        decreases height - top,
    {
        let rows = if strip_height <= height - top {
            strip_height
        } else {
            height - top
        };
        let ghost n = spans@.len();
        spans.push((top, rows));
        top = top + rows;
        proof {
            assert((n + 1) * strip_height == n * strip_height + strip_height) by (nonlinear_arith);
            lemma_strip_count(height as int, strip_height as int, n as int + 1);
        }
    }
    spans
}

/// `n` strips of `strip` rows reach past row `height - 1` exactly when `n`
/// is at least the number of strips that tile `height` rows.
proof fn lemma_strip_count(height: int, strip: int, n: int)
    requires
        strip >= 1,
        0 <= height,
        n >= 1,
        (n - 1) * strip < height,
    ensures
        n * strip < height ==> (height + strip - 1) / strip > n,
        n * strip >= height ==> (height + strip - 1) / strip == n,
{
    vstd::arithmetic::div_mod::lemma_fundamental_div_mod(height + strip - 1, strip);
    let q = (height + strip - 1) / strip;
    let r = (height + strip - 1) % strip;
    assert(n * strip == (n - 1) * strip + strip) by (nonlinear_arith);
    if n * strip < height {
        assert(q > n) by (nonlinear_arith)
            requires
                height + strip - 1 == strip * q + r,
                0 <= r < strip,
                n * strip < height,
        ;
    } else {
        assert(q == n) by (nonlinear_arith)
            requires
                height + strip - 1 == strip * q + r,
                0 <= r < strip,
                n * strip >= height,
                (n - 1) * strip < height,
        ;
    }
}

} // verus!
