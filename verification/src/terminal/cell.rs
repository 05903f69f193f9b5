//! One character cell of the screen.

use vstd::prelude::*;
use crate::terminal::color::{Color, NamedColor};

verus! {

/// The cell is shown with foreground and background exchanged.
pub const INVERSE: u8 = 1;

/// The cell is not shown.
pub const HIDDEN: u8 = 2;

/// How a cell is shown.
#[derive(Clone, Copy, PartialEq, Eq, Structural, Debug)]
pub struct Flags {
    pub bits: u8,
}

impl Flags {
    /// No flag at all.
    pub fn empty() -> (flags: Flags)
        ensures
            flags.bits == 0,
    {
        Flags { bits: 0 }
    }

    /// Whether every flag among `bits` is set.
    pub fn contains(self, bits: u8) -> (r: bool)
        ensures
            r == (self.bits & bits == bits),
    {
        self.bits & bits == bits
    }

    /// Sets the flags among `bits`.
    pub fn insert(&mut self, bits: u8)
        ensures
            final(self).bits == old(self).bits | bits,
    {
        self.bits = self.bits | bits;
    }

    /// Clears the flags among `bits`.
    pub fn remove(&mut self, bits: u8)
        ensures
            final(self).bits == old(self).bits & !bits,
    {
        self.bits = self.bits & !bits;
    }
}

/// A character with its colours and flags.
#[derive(Clone, Copy, PartialEq, Eq, Debug)]
pub struct Cell {
    pub content: char,
    pub flags: Flags,
    pub foreground: Color,
    pub background: Color,
}

impl Cell {
    /// A blank in bright white on black.
    pub open spec fn spec_default() -> Cell {
        Cell {
            content: ' ',
            flags: Flags { bits: 0 },
            foreground: Color::Indexed(15),
            background: Color::Indexed(0),
        }
    }

    /// This cell as a blank without flags, in the same colours.
    pub open spec fn spec_reset(self) -> Cell {
        Cell { content: ' ', flags: Flags { bits: 0 }, ..self }
    }

    /// A blank in bright white on black.
    pub fn default() -> (cell: Cell)
        ensures
            cell == Cell::spec_default(),
    {
        Cell {
            content: ' ',
            flags: Flags::empty(),
            foreground: Color::Indexed(NamedColor::BrightWhite.index()),
            background: Color::Indexed(NamedColor::Black.index()),
        }
    }

    /// This cell with `content` as its character.
    pub fn with_content(&self, content: char) -> (cell: Cell)
        ensures
            cell == (Cell { content, ..*self }),
    {
        Cell { content, ..*self }
    }

    /// This cell as a blank without flags, in the same colours.
    pub fn reset(&self) -> (cell: Cell)
        ensures
            cell == self.spec_reset(),
    {
        Cell { content: ' ', flags: Flags::empty(), ..*self }
    }
}

} // verus!
