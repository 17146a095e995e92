//! What this crate assumes of the standard library's array constructor.

use vstd::prelude::*;

verus! {

/// `core::array::from_fn` calls `f` once for every index of the array, which
/// therefore has to accept each of them, and puts at each index what `f`
/// returned for it. Verus takes this on trust: the body of `from_fn` is not
/// verified.
pub assume_specification<T, const N: usize, F>[ core::array::from_fn::<T, N, F> ](f: F) -> (out: [
    T;
    N
]) where F: FnMut(usize) -> T
    requires
        forall|i: usize| i < N ==> call_requires(f, (i,)),
    ensures
        forall|i: usize| i < N ==> call_ensures(f, (i,), #[trigger] out@[i as int]),
;

} // verus!
