//! Virtual memory: page arithmetic, permissions, mapped areas and the
//! address space built from them.
pub mod address;
pub mod area;
pub mod frame_allocator;
pub mod layout;
pub mod lemmas;
pub mod memory_set;
pub mod permission;
