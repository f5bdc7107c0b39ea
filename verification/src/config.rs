//! Constants shared by the whole kernel.
use vstd::prelude::*;

verus! {

/// Bytes in one page of virtual memory.
pub const PAGE_SIZE: usize = 4096;

/// Size of the per-task table of system-call counters; call numbers at or
/// above it are not counted.
pub const MAX_SYSCALL_NUM: usize = 500;

/// Timer ticks per second.
pub const CLOCK_FREQ: usize = 12_500_000;

/// Milliseconds per second.
pub const MSEC_PER_SEC: usize = 1_000;

/// Microseconds per second.
pub const MICRO_PER_SEC: usize = 1_000_000;

} // verus!
