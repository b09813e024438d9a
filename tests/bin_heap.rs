use bin_heap::{BinaryHeap, Cmp};
use std::cmp::Ordering;
use std::rc::Rc;

/// Reports `Less` whenever the two values differ, in both directions, so it
/// orders nothing consistently and the heap's ordering guarantees do not
/// apply to it; its `le` states the order it approximates.
#[derive(Clone)]
struct IntCmpR {}

impl Cmp<i32> for IntCmpR {
    fn le(&self, t1: i32, t2: i32) -> bool {
        t1 >= t2
    }

    fn lemma_total(&self, _a: i32, _b: i32) {}

    fn lemma_transitive(&self, _a: i32, _b: i32, _c: i32) {}

    fn cmp(&self, t1: &i32, t2: &i32) -> Ordering {
        match t1.cmp(t2) {
            Ordering::Greater => Ordering::Less,
            Ordering::Less => Ordering::Less,
            Ordering::Equal => Ordering::Equal,
        }
    }
}

#[test]
fn test_push() {
    let mut head = BinaryHeap::new(IntCmpR {});
    head.push(1);
    head.push(2);

    let i = head.pop();
    assert_eq!(Some(1), i);
}

/// Natural integer order: the larger value ranks ahead.
struct Natural;

impl Cmp<i32> for Natural {
    fn le(&self, t1: i32, t2: i32) -> bool {
        t1 <= t2
    }

    fn lemma_total(&self, _a: i32, _b: i32) {}

    fn lemma_transitive(&self, _a: i32, _b: i32, _c: i32) {}

    fn cmp(&self, t1: &i32, t2: &i32) -> Ordering {
        t1.cmp(t2)
    }
}

/// Inverted integer order: the larger value is reported as less.
struct Reversed;

impl Cmp<i32> for Reversed {
    fn le(&self, t1: i32, t2: i32) -> bool {
        t1 >= t2
    }

    fn lemma_total(&self, _a: i32, _b: i32) {}

    fn lemma_transitive(&self, _a: i32, _b: i32, _c: i32) {}

    fn cmp(&self, t1: &i32, t2: &i32) -> Ordering {
        t2.cmp(t1)
    }
}

/// Ranks pairs by their first component only.
struct ByKey;

impl Cmp<(i32, char)> for ByKey {
    fn le(&self, t1: (i32, char), t2: (i32, char)) -> bool {
        t1.0 <= t2.0
    }

    fn lemma_total(&self, _a: (i32, char), _b: (i32, char)) {}

    fn lemma_transitive(&self, _a: (i32, char), _b: (i32, char), _c: (i32, char)) {}

    fn cmp(&self, t1: &(i32, char), t2: &(i32, char)) -> Ordering {
        t1.0.cmp(&t2.0)
    }
}

fn drain<C: Cmp<i32>>(h: &mut BinaryHeap<i32, C>) -> Vec<i32> {
    let mut out = Vec::new();
    while let Some(x) = h.pop() {
        out.push(x);
    }
    out
}

#[test]
fn reversed_comparator_pops_smaller_first() {
    let mut h = BinaryHeap::new(Reversed);
    h.push(1);
    h.push(2);
    assert_eq!(h.pop(), Some(1));
    assert_eq!(h.pop(), Some(2));
    assert_eq!(h.pop(), None);
}

#[test]
fn natural_comparator_pops_larger_first() {
    let mut h = BinaryHeap::new(Natural);
    h.push(1);
    h.push(2);
    assert_eq!(h.pop(), Some(2));
    assert_eq!(h.pop(), Some(1));
    assert_eq!(h.pop(), None);
}

#[test]
fn natural_comparator_pushed_in_descending_order() {
    let mut h = BinaryHeap::new(Natural);
    h.push(2);
    h.push(1);
    assert_eq!(h.pop(), Some(2));
}

#[test]
fn count_follows_pushes_and_pops() {
    let mut h = BinaryHeap::new(Natural);
    assert_eq!(h.len(), 0);
    assert!(h.is_empty());
    for x in [4, 7, 1, 9, 3] {
        h.push(x);
    }
    assert_eq!(h.len(), 5);
    assert!(!h.is_empty());
    h.pop();
    h.pop();
    assert_eq!(h.len(), 3);
    h.push(6);
    assert_eq!(h.len(), 4);
    h.pop();
    h.pop();
    h.pop();
    h.pop();
    assert_eq!(h.len(), 0);
    assert!(h.is_empty());
}

#[test]
fn pop_on_empty_heap_is_none() {
    let mut h = BinaryHeap::new(Natural);
    assert_eq!(h.pop(), None);
    assert_eq!(h.len(), 0);
    assert!(h.is_empty());
    h.push(5);
    assert_eq!(h.pop(), Some(5));
    assert_eq!(h.pop(), None);
    assert_eq!(h.len(), 0);
}

#[test]
fn exhaustion_returns_every_element_in_rank_order() {
    let xs = [5, 3, 8, 1, 9, 2, 8, -4, 0, 3];
    let mut h = BinaryHeap::new(Natural);
    for x in xs {
        h.push(x);
    }
    assert_eq!(drain(&mut h), vec![9, 8, 8, 5, 3, 3, 2, 1, 0, -4]);
    assert_eq!(h.pop(), None);

    let mut r = BinaryHeap::new(Reversed);
    for x in xs {
        r.push(x);
    }
    assert_eq!(drain(&mut r), vec![-4, 0, 1, 2, 3, 3, 5, 8, 8, 9]);
    assert_eq!(r.pop(), None);
}

#[test]
fn pop_then_push_keeps_pop_order() {
    let xs = [12, 4, 30, 7, 7, 19, 1];
    let mut a = BinaryHeap::new(Natural);
    let mut b = BinaryHeap::new(Natural);
    for x in xs {
        a.push(x);
        b.push(x);
    }
    let top = b.pop().unwrap();
    assert_eq!(top, 30);
    b.push(top);
    assert_eq!(b.len(), a.len());
    assert_eq!(drain(&mut b), drain(&mut a));
}

#[test]
fn shared_comparator_serves_several_heaps() {
    let shared = Rc::new(Reversed);
    let mut a = BinaryHeap::new(Rc::clone(&shared));
    let mut b = BinaryHeap::new(Rc::clone(&shared));
    a.push(3);
    a.push(-1);
    b.push(10);
    b.push(2);
    b.push(6);
    assert_eq!(a.pop(), Some(-1));
    assert_eq!(b.pop(), Some(2));
    assert_eq!(b.pop(), Some(6));
    assert_eq!(Rc::strong_count(&shared), 3);
}

#[test]
fn equal_ranks_all_come_out() {
    let mut h = BinaryHeap::new(ByKey);
    h.push((2, 'a'));
    h.push((5, 'b'));
    h.push((2, 'c'));
    h.push((5, 'd'));
    h.push((1, 'e'));
    let mut out = Vec::new();
    while let Some(p) = h.pop() {
        out.push(p);
    }
    let keys: Vec<i32> = out.iter().map(|p| p.0).collect();
    assert_eq!(keys, vec![5, 5, 2, 2, 1]);
    let mut tags: Vec<char> = out.iter().map(|p| p.1).collect();
    tags.sort();
    assert_eq!(tags, vec!['a', 'b', 'c', 'd', 'e']);
}

#[test]
fn capacity_covers_len() {
    let mut h = BinaryHeap::new(Natural);
    assert!(h.capacity() >= h.len());
    for x in 0..37 {
        h.push(x);
        assert!(h.capacity() >= h.len());
    }
    assert!(h.capacity() >= 37);
}

#[test]
fn many_elements_come_out_sorted() {
    let mut h = BinaryHeap::new(Natural);
    let mut expected = Vec::new();
    let mut seed: u32 = 12345;
    for _ in 0..5000 {
        seed = seed.wrapping_mul(1103515245).wrapping_add(12345);
        let x = (seed >> 8) as i32 % 1000 - 500;
        h.push(x);
        expected.push(x);
    }
    expected.sort();
    expected.reverse();
    assert_eq!(h.len(), 5000);
    assert_eq!(drain(&mut h), expected);
    assert!(h.is_empty());
}

#[test]
fn extreme_values_are_ordered() {
    let mut h = BinaryHeap::new(Natural);
    h.push(0);
    h.push(i32::MIN);
    h.push(i32::MAX);
    h.push(i32::MAX);
    assert_eq!(drain(&mut h), vec![i32::MAX, i32::MAX, 0, i32::MIN]);
}
