//! Process-management system calls of a small teaching kernel.
//!
//! The crate holds the kernel-side state that the calls act on and the call
//! handlers themselves:
//!
//! - `config`: the constants of the machine;
//! - `timer`: from ticks of the hardware counter to time;
//! - `mm`: pages, permissions, mapped areas with their bytes, the address
//!   space of a task, and the pool of frames;
//! - `task`: the control block of a task and the task manager, which also
//!   chooses the task that runs;
//! - `syscall`: the handlers of exit, yield, get_time, task_info, mmap,
//!   munmap and sbrk, the layout of what they write into user memory, and
//!   what holds of calls made one after another.
//!
//! Hardware is kept outside.  The counter is handed in as a tick count;
//! memory of a task is reached by address through its address space, never
//! through a pointer; and switching between tasks is left to the caller,
//! who reads the scheduling decision back from the task manager.
pub mod config;
pub mod mm;
pub mod syscall;
pub mod task;
pub mod timer;
