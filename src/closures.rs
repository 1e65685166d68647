//! Closures as the functions they compute: a closure that accepts every
//! argument and gives one result for each is named by `fn_of2`, and the
//! library's contracts speak of that name.
use vstd::prelude::*;

verus! {

/// `f` accepts every pair of arguments and gives at most one result for each.
pub open spec fn determined2<A, B, R, F: Fn(A, B) -> R>(f: F) -> bool {
    &&& forall|a: A, b: B| #[trigger] f.requires((a, b))
    &&& forall|a: A, b: B, r1: R, r2: R|
        f.ensures((a, b), r1) && f.ensures((a, b), r2) ==> r1 == r2
}

/// The function that a determined two-argument closure computes.
pub open spec fn fn_of2<A, B, R, F: Fn(A, B) -> R>(f: F) -> spec_fn(A, B) -> R {
    |a: A, b: B| choose|r: R| f.ensures((a, b), r)
}

/// A call's result is the value of the function the closure computes.
pub proof fn lemma_fn_of2<A, B, R, F: Fn(A, B) -> R>(f: F, a: A, b: B, r: R)
    requires
        determined2(f),
        f.ensures((a, b), r),
    ensures
        fn_of2(f)(a, b) == r,
{
    let c = choose|x: R| f.ensures((a, b), x);
    assert(f.ensures((a, b), c));
}

} // verus!
