//! Questions put to the caller: closures that answer one question always the same way.
use vstd::prelude::*;

verus! {

/// `f` can be asked anything, and has one answer to each question.
pub open spec fn consistent<A, R, F: Fn(A) -> R>(f: F) -> bool {
    &&& forall|a: A| #[trigger] f.requires((a,))
    &&& forall|a: A, r: R, s: R|
        #[trigger] f.ensures((a,), r) && #[trigger] f.ensures((a,), s) ==> r == s
}

/// What `f` answers to `a`.
pub open spec fn answer<A, R, F: Fn(A) -> R>(f: F, a: A) -> R {
    choose|r: R| f.ensures((a,), r)
}

/// `a` was asked of `f`: what it answers is one of its results.
pub open spec fn answered<A, R, F: Fn(A) -> R>(f: F, a: A) -> bool {
    f.ensures((a,), answer(f, a))
}

/// Asks.
pub fn ask<A, R, F: Fn(A) -> R>(f: &F, a: A) -> (r: R)
    requires
        consistent(*f),
    ensures
        r == answer(*f, a),
        f.ensures((a,), r),
        answered(*f, a),
{
    f(a)
}

} // verus!
