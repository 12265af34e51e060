//! A buffer pool manager: a fixed set of in-memory page frames, lent out
//! under a pinning discipline and recycled by a clock-sweep.

pub mod buffer;
pub mod disk;
pub mod table;
