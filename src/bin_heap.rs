//! A binary max-heap over a comparator: `pop` returns an element that the
//! comparator ranks at or ahead of every other element held.
use crate::cmp::Cmp;
use std::cmp::Ordering;
use vstd::multiset::Multiset;
use vstd::prelude::*;

verus! {

broadcast use {vstd::seq_lib::group_to_multiset_ensures, vstd::multiset::group_multiset_axioms};

/// Index of the parent of node `i` in the array layout of a binary tree.
pub open spec fn parent(i: int) -> int {
    (i - 1) / 2
}

/// `x` ranks at or ahead of every element of `m`.
pub open spec fn ranks_first<T, C: Cmp<T>>(c: C, m: Multiset<T>, x: T) -> bool {
    forall|y: T| #[trigger] m.contains(y) ==> c.le(y, x)
}

/// Node `i` ranks at or behind its parent.
spec fn ordered_at<T, C: Cmp<T>>(c: C, s: Seq<T>, i: int) -> bool {
    c.le(s[i], s[parent(i)])
}

/// Every node ranks at or behind its parent.
pub open spec fn heap_ordered<T, C: Cmp<T>>(c: C, s: Seq<T>) -> bool {
    forall|i: int| 0 < i < s.len() ==> c.le(#[trigger] s[i], s[parent(i)])
}

/// The children of `pos` rank at or behind the parent of `pos`.
spec fn children_below_grandparent<T, C: Cmp<T>>(c: C, s: Seq<T>, pos: int) -> bool {
    &&& (pos > 0 && 2 * pos + 1 < s.len()) ==> c.le(s[2 * pos + 1], s[parent(pos)])
    &&& (pos > 0 && 2 * pos + 2 < s.len()) ==> c.le(s[2 * pos + 2], s[parent(pos)])
}

/// Heap order holds everywhere but between `pos` and its parent.
spec fn ordered_but_up<T, C: Cmp<T>>(c: C, s: Seq<T>, pos: int) -> bool {
    &&& forall|i: int| 0 < i < s.len() && i != pos ==> #[trigger] ordered_at(c, s, i)
    &&& children_below_grandparent(c, s, pos)
}

/// Heap order holds everywhere but between `pos` and its children.
spec fn ordered_but_down<T, C: Cmp<T>>(c: C, s: Seq<T>, pos: int) -> bool {
    &&& forall|i: int| 0 < i < s.len() && parent(i) != pos ==> #[trigger] ordered_at(c, s, i)
    &&& children_below_grandparent(c, s, pos)
}

/// In a heap-ordered array the root ranks at or ahead of every node.
proof fn lemma_root_ranks_first<T, C: Cmp<T>>(c: C, s: Seq<T>, i: int)
    requires
        heap_ordered(c, s),
        0 <= i < s.len(),
    ensures
        c.le(s[i], s[0]),
    decreases i,
{
    if i > 0 {
        assert(c.le(s[i], s[parent(i)]));
        lemma_root_ranks_first(c, s, parent(i));
        c.lemma_transitive(s[i], s[parent(i)], s[0]);
    } else {
        c.lemma_total(s[0], s[0]);
    }
}

/// Exchanging `pos` with its parent, which ranks strictly behind it, moves
/// the one place out of order up to the parent.
proof fn lemma_sift_up_step<T, C: Cmp<T>>(c: C, s: Seq<T>, pos: int)
    requires
        ordered_but_up(c, s, pos),
        0 < pos < s.len(),
        c.le(s[parent(pos)], s[pos]),
    ensures
        ordered_but_up(c, s.update(parent(pos), s[pos]).update(pos, s[parent(pos)]), parent(pos)),
{
    let p = parent(pos);
    let t = s.update(p, s[pos]).update(pos, s[p]);
    assert forall|i: int| 0 < i < t.len() && i != p implies #[trigger] ordered_at(c, t, i) by {
        if i == pos {
        } else if parent(i) == pos {
            assert(i == 2 * pos + 1 || i == 2 * pos + 2);
        } else if parent(i) == p {
            assert(ordered_at(c, s, i));
            c.lemma_transitive(s[i], s[p], s[pos]);
        } else {
            assert(ordered_at(c, s, i));
        }
    }
    if p > 0 {
        assert(ordered_at(c, s, p));
        let (l, r) = (2 * p + 1, 2 * p + 2);
        if l < t.len() && l != pos {
            assert(ordered_at(c, s, l));
            c.lemma_transitive(s[l], s[p], s[parent(p)]);
        }
        if r < t.len() && r != pos {
            assert(ordered_at(c, s, r));
            c.lemma_transitive(s[r], s[p], s[parent(p)]);
        }
    }
}

/// When `pos` ranks at or behind its parent, the whole array is in heap
/// order.
proof fn lemma_sift_up_done<T, C: Cmp<T>>(c: C, s: Seq<T>, pos: int)
    requires
        ordered_but_up(c, s, pos),
        0 < pos < s.len(),
        c.le(s[pos], s[parent(pos)]),
    ensures
        heap_ordered(c, s),
{
    assert forall|i: int| 0 < i < s.len() implies c.le(#[trigger] s[i], s[parent(i)]) by {
        if i != pos {
            assert(ordered_at(c, s, i));
        }
    }
}

/// Exchanging `pos` with its higher-ranked child `b`, which ranks strictly
/// ahead of it, moves the one place out of order down to `b`.
proof fn lemma_sift_down_step<T, C: Cmp<T>>(c: C, s: Seq<T>, pos: int, b: int)
    requires
        ordered_but_down(c, s, pos),
        0 <= pos,
        b == 2 * pos + 1 || b == 2 * pos + 2,
        b < s.len(),
        b == 2 * pos + 1 && b + 1 < s.len() ==> c.le(s[b + 1], s[b]),
        b == 2 * pos + 2 ==> c.le(s[b - 1], s[b]),
        c.le(s[pos], s[b]),
    ensures
        ordered_but_down(c, s.update(pos, s[b]).update(b, s[pos]), b),
{
    let t = s.update(pos, s[b]).update(b, s[pos]);
    let o = if b == 2 * pos + 1 { b + 1 } else { b - 1 };
    assert forall|i: int| 0 < i < t.len() && parent(i) != b implies #[trigger] ordered_at(c, t, i) by {
        if i == b {
        } else if i == o {
        } else if i == pos {
        } else {
            assert(ordered_at(c, s, i));
        }
    }
    let (cl, cr) = (2 * b + 1, 2 * b + 2);
    if cl < t.len() {
        assert(ordered_at(c, s, cl));
    }
    if cr < t.len() {
        assert(ordered_at(c, s, cr));
    }
}

/// When `pos` ranks at or ahead of its higher-ranked child `b`, the whole
/// array is in heap order.
proof fn lemma_sift_down_done<T, C: Cmp<T>>(c: C, s: Seq<T>, pos: int, b: int)
    requires
        ordered_but_down(c, s, pos),
        0 <= pos,
        b == 2 * pos + 1 || b == 2 * pos + 2,
        b < s.len(),
        b == 2 * pos + 1 && b + 1 < s.len() ==> c.le(s[b + 1], s[b]),
        b == 2 * pos + 2 ==> c.le(s[b - 1], s[b]),
        c.le(s[b], s[pos]),
    ensures
        heap_ordered(c, s),
{
    let o = if b == 2 * pos + 1 { b + 1 } else { b - 1 };
    if o < s.len() {
        c.lemma_transitive(s[o], s[b], s[pos]);
    }
    assert forall|i: int| 0 < i < s.len() implies c.le(#[trigger] s[i], s[parent(i)]) by {
        if parent(i) != pos {
            assert(ordered_at(c, s, i));
        } else {
            assert(i == b || i == o);
        }
    }
}

/// Exchanges the elements at `i` and `j`: `v[j]` is lifted out (the last
/// element takes its slot), exchanged into `i`, and what came from `i` goes
/// to `j` while the last element returns to the end.
fn swap_entries<T>(v: &mut Vec<T>, i: usize, j: usize)
    requires
        i < j < old(v)@.len(),
    ensures
        final(v)@ == old(v)@.update(i as int, old(v)@[j as int]).update(j as int, old(v)@[i as int]),
{
    let ghost s = v@;
    let n = v.len();
    let mut t = v.swap_remove(j);
    v.set_and_swap(i, &mut t);
    if j + 1 == n {
        v.push(t);
    } else {
        v.set_and_swap(j, &mut t);
        v.push(t);
    }
    assert(v@ =~= s.update(i as int, s[j as int]).update(j as int, s[i as int]));
}

/// Exchanging two elements keeps the multiset of elements.
proof fn lemma_swap_multiset<T>(s: Seq<T>, i: int, j: int)
    requires
        0 <= i < j < s.len(),
    ensures
        s.update(i, s[j]).update(j, s[i]).to_multiset() == s.to_multiset(),
{
    let s1 = s.update(i, s[j]);
    assert(s1[j] == s[j]);
    assert(s1.update(j, s[i]).to_multiset() =~= s.to_multiset());
}

/// A priority queue that orders its elements by the comparator `C`.
///
/// Its view is the multiset of elements held; `pop` hands out an element
/// that ranks first under the comparator, that is one that `Cmp::cmp`
/// reports as greatest. A comparator that reverses natural order therefore
/// makes a min-heap. Elements that rank equally leave in no set order.
pub struct BinaryHeap<T, C> {
    cmp: C,
    data: Vec<T>,
}

impl<T, C> View for BinaryHeap<T, C> {
    type V = Multiset<T>;

    closed spec fn view(&self) -> Multiset<T> {
        self.data@.to_multiset()
    }
}

impl<T, C: Cmp<T>> BinaryHeap<T, C> {
    /// The comparator that orders this heap.
    pub closed spec fn comparator(&self) -> C {
        self.cmp
    }

    /// The backing array is in heap order under the comparator.
    pub closed spec fn wf(&self) -> bool {
        heap_ordered(self.cmp, self.data@)
    }

    /// Moves the element at `pos` towards the root until it ranks at or
    /// behind its parent.
    fn sift_up(&mut self, pos: usize)
        requires
            pos < old(self).data@.len(),
            ordered_but_up(old(self).cmp, old(self).data@, pos as int),
        ensures
            final(self).wf(),
            final(self).cmp == old(self).cmp,
            final(self).data@.to_multiset() == old(self).data@.to_multiset(),
        decreases pos,
    {
        let ghost c = self.cmp;
        let ghost s = self.data@;
        if pos == 0 {
            assert forall|i: int| 0 < i < s.len() implies c.le(#[trigger] s[i], s[parent(i)]) by {
                assert(ordered_at(c, s, i));
            }
            return;
        }
        let p = (pos - 1) / 2;
        let ord = self.cmp.cmp(&self.data[pos], &self.data[p]);
        match ord {
            Ordering::Greater => {
                proof {
                    lemma_swap_multiset(s, p as int, pos as int);
                    lemma_sift_up_step(c, s, pos as int);
                }
                swap_entries(&mut self.data, p, pos);
                self.sift_up(p);
            },
            _ => {
                proof {
                    c.lemma_total(s[pos as int], s[p as int]);
                    lemma_sift_up_done(c, s, pos as int);
                }
            },
        }
    }

    /// Moves the element at `pos` away from the root, each time exchanging
    /// it with its higher-ranked child, until it ranks at or ahead of its
    /// children.
    fn sift_down(&mut self, pos: usize)
        requires
            pos < old(self).data@.len(),
            ordered_but_down(old(self).cmp, old(self).data@, pos as int),
        ensures
            final(self).wf(),
            final(self).cmp == old(self).cmp,
            final(self).data@.to_multiset() == old(self).data@.to_multiset(),
        decreases old(self).data@.len() - pos,
    {
        let ghost c = self.cmp;
        let ghost s = self.data@;
        let n = self.data.len();
        if pos >= n / 2 {
            assert forall|i: int| 0 < i < s.len() implies c.le(#[trigger] s[i], s[parent(i)]) by {
                assert(ordered_at(c, s, i));
            }
            return;
        }
        let l = 2 * pos + 1;
        let mut b = l;
        if l + 1 < n {
            if let Ordering::Greater = self.cmp.cmp(&self.data[l + 1], &self.data[l]) {
                b = l + 1;
            }
        }
        proof {
            c.lemma_total(s[l as int], s[(l + 1) as int]);
            let o = if b == l { l + 1 } else { l as int };
            assert(o < n ==> c.le(s[o], s[b as int]));
        }
        let ord = self.cmp.cmp(&self.data[pos], &self.data[b]);
        match ord {
            Ordering::Less => {
                proof {
                    lemma_swap_multiset(s, pos as int, b as int);
                    lemma_sift_down_step(c, s, pos as int, b as int);
                }
                swap_entries(&mut self.data, pos, b);
                self.sift_down(b);
            },
            _ => {
                proof {
                    c.lemma_total(s[pos as int], s[b as int]);
                    lemma_sift_down_done(c, s, pos as int, b as int);
                }
            },
        }
    }

    /// Creates an empty heap ordered by `cmp`.
    pub fn new(cmp: C) -> (r: Self)
        ensures
            r.wf(),
            r@ == Multiset::<T>::empty(),
            r.comparator() == cmp,
    {
        let r = BinaryHeap { cmp, data: Vec::new() };
        assert(r.data@.to_multiset() =~= Multiset::<T>::empty());
        r
    }

    /// Adds `t` to the heap.
    pub fn push(&mut self, t: T)
        requires
            old(self).wf(),
        ensures
            final(self).wf(),
            final(self).comparator() == old(self).comparator(),
            final(self)@ == old(self)@.insert(t),
    {
        let ghost s = self.data@;
        self.data.push(t);
        let pos = self.data.len() - 1;
        proof {
            let t = self.data@;
            assert forall|i: int| 0 < i < t.len() && i != pos implies #[trigger] ordered_at(self.cmp, t, i) by {
                assert(t[i] == s[i]);
            }
        }
        self.sift_up(pos);
    }

    /// Removes and returns an element that ranks at or ahead of every other
    /// element held, or `None` when the heap is empty.
    pub fn pop(&mut self) -> (r: Option<T>)
        requires
            old(self).wf(),
        ensures
            final(self).wf(),
            final(self).comparator() == old(self).comparator(),
            r is None <==> old(self)@.len() == 0,
            r is None ==> final(self)@ == old(self)@,
            r matches Some(x) ==> {
                &&& old(self)@.contains(x)
                &&& ranks_first(old(self).comparator(), old(self)@, x)
                &&& final(self)@ == old(self)@.remove(x)
            },
    {
        let ghost c = self.cmp;
        let ghost s = self.data@;
        proof {
            if s.len() > 0 {
                assert forall|y: T| #[trigger] s.to_multiset().contains(y) implies c.le(y, s[0]) by {
                    let i = choose|i: int| 0 <= i < s.len() && s[i] == y;
                    lemma_root_ranks_first(c, s, i);
                }
                assert(s.to_multiset().count(s[0]) > 0);
            }
        }
        match self.data.pop() {
            None => None,
            Some(item) => {
                let mut item = item;
                proof {
                    assert(s =~= s.drop_last().push(item));
                }
                if self.data.len() > 0 {
                    self.data.set_and_swap(0, &mut item);
                    proof {
                        let t = self.data@;
                        assert(t.to_multiset() == s.drop_last().to_multiset().insert(s.last()).remove(s[0]));
                        assert forall|i: int| 0 < i < t.len() && parent(i) != 0 implies #[trigger] ordered_at(c, t, i) by {
                            assert(s[i] == t[i]);
                            assert(s[parent(i)] == t[parent(i)]);
                        }
                    }
                    self.sift_down(0);
                }
                Some(item)
            },
        }
    }

    /// The number of elements held.
    pub fn len(&self) -> (r: usize)
        ensures
            r == self@.len(),
    {
        self.data.len()
    }

    /// Whether the heap holds no element.
    pub fn is_empty(&self) -> (r: bool)
        ensures
            r == (self@.len() == 0),
    {
        self.data.len() == 0
    }

    /// The number of elements the backing storage holds room for: never
    /// fewer than are held, `usize::MAX` for zero-sized elements, and
    /// otherwise no more than fit in `isize::MAX` bytes.
    pub fn capacity(&self) -> (r: usize)
        ensures
            r >= self@.len(),
            vstd::layout::size_of::<T>() == 0 ==> r == usize::MAX,
            vstd::layout::size_of::<T>() > 0 ==> r * vstd::layout::size_of::<T>() <= isize::MAX,
    {
        vec_capacity(&self.data)
    }
}

/// Relies on `Vec::capacity`: the storage it reports holds the `len`
/// initialised elements followed by `capacity - len` free slots; a vector of
/// zero-sized elements reports `usize::MAX`, and no vector allocates more
/// than `isize::MAX` bytes.
#[verifier::external_body]
fn vec_capacity<T>(v: &Vec<T>) -> (r: usize)
    ensures
        r >= v@.len(),
        vstd::layout::size_of::<T>() == 0 ==> r == usize::MAX,
        vstd::layout::size_of::<T>() > 0 ==> r * vstd::layout::size_of::<T>() <= isize::MAX,
{
    v.capacity()
}

} // verus!
