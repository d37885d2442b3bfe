//! The batch peak-search strategy: scan buffered loudness values in fixed
//! lanes and reduce them to the steepest candidate reduction, weighting
//! each peak by its position in the window. Functionally interchangeable
//! with the scalar peak selection: its whole observable output is pinned
//! by the contract.

use vstd::prelude::*;

use crate::fixed::ONE;
use crate::levels::DB_SEARCH_MAX;
use crate::limiter::LA_MAX;

verus! {

/// The weighted value a buffered loudness proposes: the loudness scaled
/// by its one-based position over the window length; non-peaks propose
/// nothing.
pub open spec fn weighted_db(dbs: Seq<i64>, len: int, j: int) -> int {
    if dbs[j] > 0 {
        dbs[j] * (j + 1) / len
    } else {
        0
    }
}

/// The largest weighted loudness among the first `n` buffered values,
/// starting from zero.
pub open spec fn max_weighted(dbs: Seq<i64>, len: int, n: int) -> int
    decreases n,
{
    if n <= 0 {
        0
    } else {
        let m = max_weighted(dbs, len, n - 1);
        if weighted_db(dbs, len, n - 1) > m {
            weighted_db(dbs, len, n - 1)
        } else {
            m
        }
    }
}

/// Scan the buffered loudness values in lanes of `L` and return the
/// steepest candidate reduction: minus the largest position-weighted
/// peak loudness.
pub fn simd_max_reduction<const L: usize>(db_buffer: &Vec<i64>, len: u64) -> (r: i64)
    requires
        L >= 1,
        1 <= len,
        db_buffer@.len() <= LA_MAX + 1,
        forall|j: int| 0 <= j < db_buffer@.len() ==> #[trigger] db_buffer@[j] <= DB_SEARCH_MAX,
    ensures
        r == -max_weighted(db_buffer@, len as int, db_buffer@.len() as int),
        r <= 0,
{
    let n = db_buffer.len();
    let mut m: u64 = 0;
    let mut base: usize = 0;
    proof {
        lemma_max_weighted_bounds(db_buffer@, len as int, 0);
    }
    while base < n
        invariant
            base <= n,
            n == db_buffer@.len(),
            n <= LA_MAX + 1,
            1 <= len,
            L >= 1,
            forall|j: int| 0 <= j < n ==> #[trigger] db_buffer@[j] <= DB_SEARCH_MAX,
            m == max_weighted(db_buffer@, len as int, base as int),
            m <= 9_223_372_036_854_775_807,
        decreases n - base,
    {
        let mut lane: usize = 0;
        while lane < L && base + lane < n
            invariant
                lane <= L,
                base + lane <= n,
                n == db_buffer@.len(),
                n <= LA_MAX + 1,
                1 <= len,
                forall|j: int| 0 <= j < n ==> #[trigger] db_buffer@[j] <= DB_SEARCH_MAX,
                m == max_weighted(db_buffer@, len as int, (base + lane) as int),
                m <= 9_223_372_036_854_775_807,
            decreases n - base - lane,
        {
            let j = base + lane;
            let db = db_buffer[j];
            if db > 0 {
                proof {
                    vstd::arithmetic::mul::lemma_mul_upper_bound(
                        db as int,
                        DB_SEARCH_MAX as int,
                        j as int + 1,
                        LA_MAX as int + 1,
                    );
                    vstd::arithmetic::mul::lemma_mul_nonnegative(db as int, j as int + 1);
                    vstd::arithmetic::div_mod::lemma_div_is_ordered(
                        (db as int) * (j as int + 1),
                        (DB_SEARCH_MAX as int) * (LA_MAX as int + 1),
                        len as int,
                    );
                    vstd::arithmetic::div_mod::lemma_div_nonincreasing(
                        (DB_SEARCH_MAX as int) * (LA_MAX as int + 1),
                        len as int,
                    );
                    vstd::arithmetic::div_mod::lemma_div_pos_is_pos(
                        (db as int) * (j as int + 1),
                        len as int,
                    );
                }
                let w: u64 = ((db as u64) * ((j + 1) as u64)) / len;
                if w > m {
                    m = w;
                }
            }
            lane = lane + 1;
        }
        base = base + lane;
    }
    proof {
        lemma_max_weighted_bounds(db_buffer@, len as int, n as int);
    }
    -(m as i64)
}

/// The weighted maximum is never negative and fits the machine range.
proof fn lemma_max_weighted_bounds(dbs: Seq<i64>, len: int, n: int)
    requires
        1 <= len,
    ensures
        0 <= max_weighted(dbs, len, n),
    decreases n,
{
    if n > 0 {
        lemma_max_weighted_bounds(dbs, len, n - 1);
    }
}

} // verus!
