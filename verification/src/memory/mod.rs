//! Physical memory, page-table format and address-space management.

pub mod addr;
pub mod entry;
pub mod phys;
pub mod frame_alloc;
pub mod walk;
pub mod page_table;
pub mod mapper;
pub mod cloner;
pub mod access;
pub mod teardown;
pub mod adopt;
pub mod laws;
