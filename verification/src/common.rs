//! Sorting the outcomes of a batch of calculations, and the number of
//! calculations to run at once.

use crate::calculator::FibError;
use vstd::prelude::*;

verus! {

/// The `Ok` values of `s`, in order.
pub open spec fn oks<T>(s: Seq<Result<T, FibError>>) -> Seq<T>
    decreases s.len(),
{
    if s.len() == 0 {
        Seq::empty()
    } else {
        let rest = oks(s.drop_last());
        match s.last() {
            Ok(v) => rest.push(v),
            Err(_) => rest,
        }
    }
}

/// The errors of `s`, in order.
pub open spec fn errs<T>(s: Seq<Result<T, FibError>>) -> Seq<FibError>
    decreases s.len(),
{
    if s.len() == 0 {
        Seq::empty()
    } else {
        let rest = errs(s.drop_last());
        match s.last() {
            Ok(_) => rest,
            Err(e) => rest.push(e),
        }
    }
}

/// Split results into the successes and the errors, each in order.
pub fn collect_errors<T>(results: Vec<Result<T, FibError>>) -> (r: (Vec<T>, Vec<FibError>))
    ensures
        r.0@ == oks(results@),
        r.1@ == errs(results@),
{
    let mut successes: Vec<T> = Vec::new();
    let mut errors: Vec<FibError> = Vec::new();
    let ghost all = results@;
    for result in it: results
        invariant
            all == it.seq(),
            successes@ == oks(all.take(it.index() as int)),
            errors@ == errs(all.take(it.index() as int)),
    {
        proof {
            assert(all.take(it.index() as int + 1).drop_last() =~= all.take(it.index() as int));
        }
        match result {
            Ok(v) => successes.push(v),
            Err(e) => errors.push(e),
        }
    }
    proof {
        assert(all.take(all.len() as int) =~= all);
    }
    (successes, errors)
}

/// The first error of `s`, if any.
pub open spec fn first_err<T>(s: Seq<Result<T, FibError>>) -> Option<FibError>
    decreases s.len(),
{
    if s.len() == 0 {
        None
    } else {
        match first_err(s.drop_last()) {
            Some(e) => Some(e),
            None => match s.last() {
                Ok(_) => None,
                Err(e) => Some(e),
            },
        }
    }
}

/// The outcome of a batch: the first error in task order if there is one,
/// else all the values in task order. Errors after it are dropped. The
/// first error in task order need not be the one that happened first: a
/// task earlier in the order that was cancelled because of a later task's
/// failure gives its `Cancelled`, and that is what is returned.
pub fn first_error_or_values<T>(results: Vec<Result<T, FibError>>) -> (r: Result<Vec<T>, FibError>)
    ensures
        first_err(results@) matches Some(e) ==> r == Err::<Vec<T>, FibError>(e),
        first_err(results@) is None ==> (r matches Ok(v) && v@ == oks(results@)),
{
    let mut collected: Vec<T> = Vec::new();
    let mut first_error: Option<FibError> = None;
    let ghost all = results@;
    for result in it: results
        invariant
            all == it.seq(),
            collected@ == oks(all.take(it.index() as int)),
            first_error == first_err(all.take(it.index() as int)),
    {
        proof {
            assert(all.take(it.index() as int + 1).drop_last() =~= all.take(it.index() as int));
        }
        match result {
            Ok(val) => collected.push(val),
            Err(e) => {
                if first_error.is_none() {
                    first_error = Some(e);
                }
            },
        }
    }
    proof {
        assert(all.take(all.len() as int) =~= all);
    }
    match first_error {
        Some(err) => Err(err),
        None => Ok(collected),
    }
}

/// Number of calculations to run at once: the requested number capped at
/// `max`, or `max` when none (or zero) is requested.
pub fn semaphore_concurrency(requested: Option<usize>, max: usize) -> (r: usize)
    ensures
        r == match requested {
            Some(n) => if n > 0 { if n < max { n } else { max } } else { max },
            None => max,
        },
{
    match requested {
        Some(n) => {
            if n > 0 {
                if n < max { n } else { max }
            } else {
                max
            }
        },
        None => max,
    }
}

} // verus!
