//! What the kernel does on behalf of user processes.

pub mod syscall;
