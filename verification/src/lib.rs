//! Simulation of dynamic partitioned memory allocation.
//!
//! A fixed-size memory region is divided into contiguous partitions, each
//! either free (a hole) or occupied by exactly one process.  Processes arrive
//! at given ticks, occupy memory for a bounded runtime, and depart; placement
//! follows a best-fit or worst-fit strategy, departures trigger coalescing of
//! adjacent holes.  Every state transition is specified and verified.

pub mod memory;
pub mod partition;
pub mod process;
pub mod text;
