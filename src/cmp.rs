//! The comparator capability that orders the elements of a heap.
use std::cmp::Ordering;
use std::rc::Rc;
use vstd::prelude::*;

verus! {

/// A three-way comparison on values of `T`, held by a heap instead of an
/// ordering on `T` itself.
///
/// The comparison is described by the relation `le`, which must be a total
/// preorder: every two values are related one way or the other, and the
/// relation is transitive. Values related both ways rank equally, without
/// having to be the same value.
pub trait Cmp<T> {
    /// `a` ranks at or behind `b`.
    spec fn le(&self, a: T, b: T) -> bool;

    /// Every two values are comparable.
    proof fn lemma_total(&self, a: T, b: T)
        ensures
            self.le(a, b) || self.le(b, a),
    ;

    /// Ranking is transitive.
    proof fn lemma_transitive(&self, a: T, b: T, c: T)
        requires
            self.le(a, b),
            self.le(b, c),
        ensures
            self.le(a, c),
    ;

    /// Compares `t1` with `t2`: `Less` when `t1` ranks strictly behind `t2`,
    /// `Greater` when strictly ahead, `Equal` when they rank the same.
    fn cmp(&self, t1: &T, t2: &T) -> (r: Ordering)
        ensures
            r == Ordering::Less <==> (self.le(*t1, *t2) && !self.le(*t2, *t1)),
            r == Ordering::Equal <==> (self.le(*t1, *t2) && self.le(*t2, *t1)),
            r == Ordering::Greater <==> (self.le(*t2, *t1) && !self.le(*t1, *t2)),
    ;
}

/// A comparator shared by reference counting orders exactly as the
/// comparator it points to, so several heaps can use one comparator.
impl<T, C: Cmp<T>> Cmp<T> for Rc<C> {
    open spec fn le(&self, a: T, b: T) -> bool {
        (**self).le(a, b)
    }

    proof fn lemma_total(&self, a: T, b: T) {
        (**self).lemma_total(a, b);
    }

    proof fn lemma_transitive(&self, a: T, b: T, c: T) {
        (**self).lemma_transitive(a, b, c);
    }

    fn cmp(&self, t1: &T, t2: &T) -> (r: Ordering) {
        (**self).cmp(t1, t2)
    }
}

} // verus!
