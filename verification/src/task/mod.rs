//! Tasks: the control block of one task, and the manager of all of them.
pub mod control_block;
pub mod manager;
pub mod status;
pub mod table;
