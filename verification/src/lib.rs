//! Virtual-memory core of a small kernel: address spaces built on a four-level
//! page table kept in a window of physical memory, together with the syscall
//! and terminal layers that sit on top of it.

pub mod fs;
pub mod memory;
pub mod terminal;
pub mod user;
