//! What runs of `push` and `pop` do to the contents of a heap, stated over
//! the multiset view that the operations' own contracts use.
use crate::bin_heap::ranks_first;
use crate::cmp::Cmp;
use vstd::multiset::Multiset;
use vstd::prelude::*;

verus! {

broadcast use {
    vstd::seq_lib::group_to_multiset_ensures,
    vstd::multiset::group_multiset_axioms,
    vstd::multiset::group_multiset_properties,
};

/// One completed call on a heap: a push of the value, or a pop that
/// returned it.
pub enum Step<T> {
    Push(T),
    Pop(T),
}

/// Whether `steps` can happen in turn on a heap ordered by `c` and holding
/// `m`: each pop returns an element that is held and ranks first at the time.
pub open spec fn run_allowed<T, C: Cmp<T>>(c: C, m: Multiset<T>, steps: Seq<Step<T>>) -> bool
    decreases steps.len(),
{
    if steps.len() == 0 {
        true
    } else {
        match steps[0] {
            Step::Push(x) => run_allowed(c, m.insert(x), steps.drop_first()),
            Step::Pop(x) => {
                &&& m.contains(x)
                &&& ranks_first(c, m, x)
                &&& run_allowed(c, m.remove(x), steps.drop_first())
            },
        }
    }
}

/// The contents after `steps`, starting from `m`.
pub open spec fn after_run<T>(m: Multiset<T>, steps: Seq<Step<T>>) -> Multiset<T>
    decreases steps.len(),
{
    if steps.len() == 0 {
        m
    } else {
        match steps[0] {
            Step::Push(x) => after_run(m.insert(x), steps.drop_first()),
            Step::Pop(x) => after_run(m.remove(x), steps.drop_first()),
        }
    }
}

/// How many of `steps` are pushes.
pub open spec fn push_count<T>(steps: Seq<Step<T>>) -> nat
    decreases steps.len(),
{
    if steps.len() == 0 {
        0
    } else {
        (if steps[0] is Push { 1nat } else { 0nat }) + push_count(steps.drop_first())
    }
}

/// How many of `steps` are pops.
pub open spec fn pop_count<T>(steps: Seq<Step<T>>) -> nat
    decreases steps.len(),
{
    if steps.len() == 0 {
        0
    } else {
        (if steps[0] is Pop { 1nat } else { 0nat }) + pop_count(steps.drop_first())
    }
}

/// The contents after pushing each of `xs` in turn onto a heap holding `m`.
pub open spec fn after_pushes<T>(m: Multiset<T>, xs: Seq<T>) -> Multiset<T>
    decreases xs.len(),
{
    if xs.len() == 0 {
        m
    } else {
        after_pushes(m, xs.drop_last()).insert(xs.last())
    }
}

/// Whether successive pops from a heap ordered by `c` and holding `m` can
/// return the elements of `ys` in turn.
pub open spec fn pops_from<T, C: Cmp<T>>(c: C, m: Multiset<T>, ys: Seq<T>) -> bool
    decreases ys.len(),
{
    ys.len() == 0 || {
        &&& m.contains(ys[0])
        &&& ranks_first(c, m, ys[0])
        &&& pops_from(c, m.remove(ys[0]), ys.drop_first())
    }
}

/// The contents after popping each of `ys` in turn from a heap holding `m`.
pub open spec fn after_pops<T>(m: Multiset<T>, ys: Seq<T>) -> Multiset<T>
    decreases ys.len(),
{
    if ys.len() == 0 {
        m
    } else {
        after_pops(m.remove(ys[0]), ys.drop_first())
    }
}

proof fn lemma_run_len<T, C: Cmp<T>>(c: C, m: Multiset<T>, steps: Seq<Step<T>>)
    requires
        run_allowed(c, m, steps),
    ensures
        after_run(m, steps).len() + pop_count(steps) == m.len() + push_count(steps),
    decreases steps.len(),
{
    if steps.len() > 0 {
        match steps[0] {
            Step::Push(x) => lemma_run_len(c, m.insert(x), steps.drop_first()),
            Step::Pop(x) => lemma_run_len(c, m.remove(x), steps.drop_first()),
        }
    }
}

/// On a heap made by `new`, any run of pushes and pops that the operations
/// allow leaves as many elements as there were pushes less pops, and never
/// pops more often than it pushes.
pub proof fn lemma_count<T, C: Cmp<T>>(c: C, steps: Seq<Step<T>>)
    requires
        run_allowed(c, Multiset::empty(), steps),
    ensures
        pop_count(steps) <= push_count(steps),
        after_run(Multiset::<T>::empty(), steps).len() == push_count(steps) - pop_count(steps),
{
    lemma_run_len(c, Multiset::empty(), steps);
}

proof fn lemma_pushes_collect<T>(xs: Seq<T>)
    ensures
        after_pushes(Multiset::empty(), xs) == xs.to_multiset(),
    decreases xs.len(),
{
    if xs.len() > 0 {
        lemma_pushes_collect(xs.drop_last());
        assert(xs =~= xs.drop_last().push(xs.last()));
    } else {
        assert(xs.to_multiset() =~= Multiset::<T>::empty());
    }
}

proof fn lemma_pops_cover<T, C: Cmp<T>>(c: C, m: Multiset<T>, ys: Seq<T>)
    requires
        pops_from(c, m, ys),
    ensures
        m == after_pops(m, ys).add(ys.to_multiset()),
        forall|i: int, j: int| 0 <= i < j < ys.len() ==> c.le(#[trigger] ys[j], #[trigger] ys[i]),
    decreases ys.len(),
{
    if ys.len() == 0 {
        assert(ys.to_multiset() =~= Multiset::<T>::empty());
        assert(m =~= m.add(Multiset::empty()));
    } else {
        let (y, rest) = (ys[0], ys.drop_first());
        let m1 = m.remove(y);
        lemma_pops_cover(c, m1, rest);
        assert(ys =~= seq![y] + rest);
        assert(ys.to_multiset() =~= rest.to_multiset().insert(y)) by {
            vstd::seq_lib::lemma_multiset_commutative(seq![y], rest);
            assert(seq![y].to_multiset() =~= Multiset::<T>::empty().insert(y)) by {
                assert(seq![y] =~= Seq::<T>::empty().push(y));
                assert(Seq::<T>::empty().to_multiset() =~= Multiset::<T>::empty());
            }
        }
        assert(after_pops(m, ys) == after_pops(m1, rest));
        assert(m1.insert(y) =~= m);
        assert(after_pops(m1, rest).add(rest.to_multiset().insert(y)) =~= m1.insert(y));
        assert forall|i: int, j: int| 0 <= i < j < ys.len() implies c.le(#[trigger] ys[j], #[trigger] ys[i]) by {
            if i > 0 {
                assert(rest[j - 1] == ys[j] && rest[i - 1] == ys[i]);
            } else {
                assert(rest.to_multiset().count(rest[j - 1]) > 0);
                assert(m.contains(ys[j]));
            }
        }
    }
}

/// Pushing `xs` onto a heap made by `new` and then popping as many times
/// returns every pushed element exactly once, in order of rank from first
/// to last, and leaves the heap empty, so that a further pop returns `None`.
pub proof fn lemma_exhaustion<T, C: Cmp<T>>(c: C, xs: Seq<T>, ys: Seq<T>)
    requires
        pops_from(c, after_pushes(Multiset::empty(), xs), ys),
        ys.len() == xs.len(),
    ensures
        ys.to_multiset() == xs.to_multiset(),
        forall|i: int, j: int| 0 <= i < j < ys.len() ==> c.le(#[trigger] ys[j], #[trigger] ys[i]),
        after_pops(after_pushes(Multiset::empty(), xs), ys).len() == 0,
{
    lemma_pushes_collect(xs);
    let m = xs.to_multiset();
    lemma_pops_cover(c, m, ys);
    let rest = after_pops(m, ys);
    assert(m.len() == xs.len());
    assert(ys.to_multiset().len() == ys.len());
    assert(m.len() == rest.len() + ys.to_multiset().len());
    assert(rest.len() == 0);
    assert(rest =~= Multiset::<T>::empty());
    assert(m =~= ys.to_multiset());
}

/// Popping `x` and pushing it straight back restores the contents, and
/// with them every outcome that later pops may have.
pub proof fn lemma_pop_push_restores<T>(m: Multiset<T>, x: T)
    requires
        m.contains(x),
    ensures
        m.remove(x).insert(x) == m,
{
    assert(m.remove(x).insert(x) =~= m);
}

} // verus!
