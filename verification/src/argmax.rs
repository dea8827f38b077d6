//! The place of the largest entry of a vector.

use vstd::prelude::*;
use crate::scalar::{Scalar, is_comparison};

verus! {

/// Why a vector has no largest entry.
#[derive(Clone, Copy, Debug, PartialEq, Eq)]
pub enum ArgmaxError {
    /// The vector is empty.
    EmptyInput,
    /// Two entries that had to be compared are not ordered.
    UndefinedOrder,
}

/// Step `k` of the scan: entry `k - 1` is compared with the best entry so
/// far, with outcome `c`, and takes its place if it exceeds it. A scan that
/// has failed stays failed.
pub open spec fn is_argmax_step<T: Scalar>(
    v: Seq<T>,
    k: int,
    prev: Result<usize, ArgmaxError>,
    c: Option<bool>,
    next: Result<usize, ArgmaxError>,
) -> bool {
    match prev {
        Err(_) => next == prev,
        Ok(best) => {
            &&& is_comparison(v[k - 1], v[best as int], c)
            &&& next == match c {
                None => Err::<usize, ArgmaxError>(ArgmaxError::UndefinedOrder),
                Some(true) => Ok::<usize, ArgmaxError>((k - 1) as usize),
                Some(false) => Ok::<usize, ArgmaxError>(best),
            }
        },
    }
}

/// `r` is the state of the scan after the first `k` entries of `v`. The scan
/// starts with entry 0 as the best.
pub open spec fn is_argmax_upto<T: Scalar>(v: Seq<T>, k: int, r: Result<usize, ArgmaxError>) -> bool
    decreases k,
{
    if k <= 0 {
        r == Ok::<usize, ArgmaxError>(0)
    } else {
        exists|prev: Result<usize, ArgmaxError>, c: Option<bool>|
            #![trigger is_argmax_step(v, k, prev, c, r)]
            is_argmax_upto(v, k - 1, prev) && is_argmax_step(v, k, prev, c, r)
    }
}

/// `r` is the place of the largest entry of `v`: the first entry that no
/// later entry was found to exceed, each entry being compared with the best
/// before it, entry 0 with itself. It is an error where `v` is empty or a
/// comparison has no outcome.
pub open spec fn is_argmax<T: Scalar>(v: Seq<T>, r: Result<usize, ArgmaxError>) -> bool {
    if v.len() == 0 {
        r == Err::<usize, ArgmaxError>(ArgmaxError::EmptyInput)
    } else {
        is_argmax_upto(v, v.len() as int, r)
    }
}

/// A scan that has failed after `i` entries has failed after `j >= i`.
proof fn lemma_failure_stays<T: Scalar>(v: Seq<T>, i: int, j: int, e: ArgmaxError)
    requires
        0 <= i <= j,
        is_argmax_upto(v, i, Err::<usize, ArgmaxError>(e)),
    ensures
        is_argmax_upto(v, j, Err::<usize, ArgmaxError>(e)),
    decreases j - i,
{
    if i < j {
        lemma_failure_stays(v, i, j - 1, e);
        let prev = Err::<usize, ArgmaxError>(e);
        assert(is_argmax_step(v, j, prev, None, prev));
    }
}

/// The place of the largest entry of `v`.
pub fn argmax<T: Scalar>(v: &Vec<T>) -> (r: Result<usize, ArgmaxError>)
    ensures
        is_argmax(v@, r),
        r matches Ok(i) ==> i < v.len(),
{
    if v.len() == 0 {
        return Err(ArgmaxError::EmptyInput);
    }
    let mut best: usize = 0;
    let mut i: usize = 0;
    while i < v.len()
        invariant
            i <= v.len(),
            best < v.len(),
            is_argmax_upto(v@, i as int, Ok::<usize, ArgmaxError>(best)),
        decreases v.len() - i,
    {
        let c = v[i].exceeds(v[best]);
        let ghost prev = Ok::<usize, ArgmaxError>(best);
        match c {
            None => {
                proof {
                    let failed = Err::<usize, ArgmaxError>(ArgmaxError::UndefinedOrder);
                    assert(is_argmax_step(v@, i + 1, prev, c, failed));
                    assert(is_argmax_upto(v@, i + 1, failed));
                    lemma_failure_stays(v@, i + 1, v.len() as int, ArgmaxError::UndefinedOrder);
                }
                return Err(ArgmaxError::UndefinedOrder);
            },
            Some(larger) => {
                if larger {
                    best = i;
                }
                proof {
                    let next = Ok::<usize, ArgmaxError>(best);
                    assert(is_argmax_step(v@, i + 1, prev, c, next));
                    assert(is_argmax_upto(v@, i + 1, next));
                }
            },
        }
        i += 1;
    }
    Ok(best)
}

/// Whether two scans ended alike: at the same place, or with the same error.
pub fn same_outcome(p: Result<usize, ArgmaxError>, q: Result<usize, ArgmaxError>) -> (b: bool)
    ensures
        b == (p == q),
{
    match (p, q) {
        (Ok(i), Ok(j)) => i == j,
        (Err(ArgmaxError::EmptyInput), Err(ArgmaxError::EmptyInput)) => true,
        (Err(ArgmaxError::UndefinedOrder), Err(ArgmaxError::UndefinedOrder)) => true,
        _ => false,
    }
}

} // verus!
