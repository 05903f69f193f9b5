//! The text terminal: escape sequences, cursor and screen buffer.

pub mod color;
pub mod cell;
pub mod buffer;
pub mod ansi;
pub mod console;
