//! The filesystem tree.

pub mod vfs;
