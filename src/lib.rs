//! A binary min-heap priority queue whose buffer doubles as the storage of an
//! in-place heap sort.
pub mod heap;
pub mod order;
