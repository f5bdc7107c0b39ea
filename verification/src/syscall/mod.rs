//! System calls: how results are laid out in user memory, and the handlers
//! of the process-management calls.
pub mod abi;
pub mod laws;
pub mod process;
