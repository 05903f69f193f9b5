//! The virtual filesystem: inodes and what is mounted where.

pub mod root;
