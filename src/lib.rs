//! A binary heap whose order comes from a comparator object supplied at
//! construction, rather than from the element type's own ordering.
pub mod bin_heap;
pub mod cmp;
pub mod history;

pub use bin_heap::BinaryHeap;
pub use cmp::Cmp;
