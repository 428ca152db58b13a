//! Pure functions handed in by a caller, and running one of them over a range
//! of indices on the thread pool.
//!
//! A renderer evaluates one escape-time value per pixel. The arithmetic behind
//! that value is the caller's; what is proved here holds for every function the
//! caller may hand in.

use rayon::iter::{IntoParallelIterator, ParallelIterator};
use vstd::prelude::*;

verus! {

/// `f` answers every argument, and answers equal arguments equally.
pub open spec fn is_function<A, R, F: Fn(A) -> R>(f: F) -> bool {
    &&& forall|a: A| #[trigger] call_requires(f, (a,))
    &&& forall|a: A, r: R, s: R|
        #[trigger] call_ensures(f, (a,), r) && #[trigger] call_ensures(f, (a,), s) ==> r == s
}

/// What the function `f` answers at `a`.
pub open spec fn value_of<A, R, F: Fn(A) -> R>(f: F, a: A) -> R {
    choose|r: R| call_ensures(f, (a,), r)
}

/// Calls `f` at `a`.
pub fn evaluate<A, R, F: Fn(A) -> R>(f: &F, a: A) -> (r: R)
    requires
        is_function(*f),
    ensures
        r == value_of(*f, a),
{
    (*f)(a)
}

/// `f` answers every argument about every object, and answers alike where both
/// are equal.
pub open spec fn is_function_of<O, A, R, F: Fn(&O, A) -> R>(f: F) -> bool {
    &&& forall|o: &O, a: A| #[trigger] call_requires(f, (o, a))
    &&& forall|o: &O, a: A, r: R, s: R|
        #[trigger] call_ensures(f, (o, a), r) && #[trigger] call_ensures(f, (o, a), s) ==> r == s
}

/// What `f` answers about the object `o` at `a`.
pub open spec fn value_for<O, A, R, F: Fn(&O, A) -> R>(f: F, o: O, a: A) -> R {
    choose|r: R| call_ensures(f, (&o, a), r)
}

/// Calls `f` about the object `o` at `a`.
pub fn evaluate_for<O, A, R, F: Fn(&O, A) -> R>(f: &F, o: &O, a: A) -> (r: R)
    requires
        is_function_of(*f),
    ensures
        r == value_for(*f, *o, a),
{
    (*f)(o, a)
}

/// Runs `f` on every index below `n` on rayon's thread pool and collects the
/// results in index order.
///
/// Calls `into_par_iter`, `map` and `collect` of rayon's parallel iterators
/// over a `Range<usize>`. Trusted: the collected vector has one entry per index,
/// in index order, and each entry is what a call of `f` at that index returned.
#[verifier::external_body]
pub(crate) fn par_map<R: Send, F: Fn(usize) -> R + Sync>(n: usize, f: &F) -> (out: Vec<R>)
    requires
        forall|i: usize| i < n ==> #[trigger] call_requires(*f, (i,)),
    ensures
        out@.len() == n,
        forall|i: int| 0 <= i < n ==> call_ensures(*f, (i as usize,), #[trigger] out@[i]),
{
    (0..n).into_par_iter().map(|i| f(i)).collect()
}

} // verus!
