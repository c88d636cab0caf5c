//! How many workers a pool is built with.
use vstd::prelude::*;

verus! {

/// The number of workers that a pool asked for `requested` workers gets, where
/// `detected` is the parallelism that the host reports (if it reports any).
pub open spec fn resolved_count(requested: Option<usize>, detected: Option<usize>) -> Option<usize> {
    match requested {
        Some(n) => if n > 0 { Some(n) } else { None },
        None => match detected {
            Some(d) => if d > 0 { Some(d) } else { None },
            None => None,
        },
    }
}

/// Picks the worker count of a new pool: the requested count when one is
/// given, otherwise the host's detected parallelism.
///
/// Returns `None` when the count would not be a positive integer: a requested
/// count of zero, or no request and no usable parallelism from the host.
pub fn resolve_worker_count(requested: Option<usize>, detected: Option<usize>) -> (r: Option<usize>)
    ensures
        r == resolved_count(requested, detected),
        requested is Some && requested->0 > 0 ==> r == requested,
        requested is None ==> (r is Some <==> (detected is Some && detected->0 > 0)),
        r is Some ==> r->0 > 0,
{
    match requested {
        Some(n) => {
            if n > 0 {
                Some(n)
            } else {
                None
            }
        },
        None => match detected {
            Some(d) => {
                if d > 0 {
                    Some(d)
                } else {
                    None
                }
            },
            None => None,
        },
    }
}

} // verus!
