//! The in-memory write path of an ordered key-value store: bytewise and versioned key
//! comparators, the encodings of internal and memtable keys, and a skip list that keeps
//! encoded keys sorted, with a cursor over it.

pub mod cmp;
pub mod iterator;
pub mod ktypes;
pub mod skiplist;
