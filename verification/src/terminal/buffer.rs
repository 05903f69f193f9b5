//! The screen: a grid of cells.

use vstd::prelude::*;
use crate::terminal::cell::Cell;

verus! {

/// The position of the cell in `row` and `column` of a grid `width` cells
/// wide, counted row by row.
pub open spec fn cell_index(width: int, row: int, column: int) -> int {
    row * width + column
}

/// A grid of cells, `height` rows of `width` cells, never empty.
pub struct TerminalBuffer {
    width: usize,
    height: usize,
    cells: Vec<Cell>,
}

impl View for TerminalBuffer {
    type V = Seq<Cell>;

    /// The cells of the grid, row by row.
    closed spec fn view(&self) -> Seq<Cell> {
        self.cells@
    }
}

impl TerminalBuffer {
    /// The grid is not empty and holds a cell for each of its places.
    #[verifier::type_invariant]
    pub closed spec fn inv(self) -> bool {
        &&& self.width >= 1
        &&& self.height >= 1
        &&& self.cells@.len() == self.width * self.height
    }

    /// Number of cells in a row.
    pub closed spec fn spec_width(self) -> int {
        self.width as int
    }

    /// Number of rows.
    pub closed spec fn spec_height(self) -> int {
        self.height as int
    }

    /// The cell in `row` and `column`.
    pub open spec fn at(self, row: int, column: int) -> Cell {
        self@[cell_index(self.spec_width(), row, column)]
    }

    /// Whether `row` and `column` name a cell of the grid.
    pub open spec fn holds(self, row: int, column: int) -> bool {
        0 <= row < self.spec_height() && 0 <= column < self.spec_width()
    }

    /// What is known of every grid: it is not empty, and its view holds its
    /// cells row by row.
    pub proof fn lemma_shape(self)
        requires
            self.inv(),
        ensures
            self.spec_width() >= 1,
            self.spec_height() >= 1,
            self@.len() == self.spec_width() * self.spec_height(),
            forall|row: int, column: int|
                self.holds(row, column) ==> 0 <= #[trigger] cell_index(
                    self.spec_width(),
                    row,
                    column,
                ) < self@.len(),
    {
        let w = self.spec_width();
        let h = self.spec_height();
        assert forall|row: int, column: int| self.holds(row, column) implies 0 <= #[trigger] cell_index(
            w,
            row,
            column,
        ) < self@.len() by {
            lemma_cell_index(w, h, row, column);
        }
    }

    /// A grid of `height` rows of `width` cells, each a copy of `fill`;
    /// `None` for an empty grid and for one with more cells than can be
    /// counted.
    pub fn new(width: usize, height: usize, fill: Cell) -> (r: Option<TerminalBuffer>)
        ensures
            r.is_some() <==> width >= 1 && height >= 1 && width * height <= usize::MAX,
            r.is_some() ==> {
                let buffer = r.unwrap();
                &&& buffer.inv()
                &&& buffer.spec_width() == width
                &&& buffer.spec_height() == height
                &&& forall|i: int| 0 <= i < buffer@.len() ==> buffer@[i] == fill
            },
    {
        if width == 0 || height == 0 {
            return None;
        }
        if width > usize::MAX / height {
            proof {
                assert(width * height > usize::MAX) by (nonlinear_arith)
                    requires
                        width > usize::MAX / height,
                        height >= 1,
                ;
            }
            return None;
        }
        proof {
            assert(width * height <= usize::MAX) by (nonlinear_arith)
                requires
                    width <= usize::MAX / height,
                    height >= 1,
            ;
        }
        let cells: Vec<Cell> = vec![fill; width * height];
        Some(TerminalBuffer { width, height, cells })
    }

    /// Number of cells in a row.
    pub fn width(&self) -> (w: usize)
        ensures
            w == self.spec_width(),
            w >= 1,
    {
        proof {
            use_type_invariant(self);
        }
        self.width
    }

    /// Number of rows.
    pub fn height(&self) -> (h: usize)
        ensures
            h == self.spec_height(),
            h >= 1,
    {
        proof {
            use_type_invariant(self);
        }
        self.height
    }

    /// The cell in `row` and `column`; `None` outside the grid.
    pub fn read(&self, row: usize, column: usize) -> (r: Option<Cell>)
        ensures
            r.is_some() <==> self.holds(row as int, column as int),
            r.is_some() ==> r.unwrap() == self.at(row as int, column as int),
    {
        proof {
            use_type_invariant(self);
        }
        if row < self.height && column < self.width {
            let count = self.cells.len();
            proof {
                lemma_cell_index(self.width as int, self.height as int, row as int, column as int);
                assert(0 <= row * self.width <= cell_index(
                    self.width as int,
                    row as int,
                    column as int,
                )) by (nonlinear_arith)
                    requires
                        0 <= row,
                        0 <= self.width,
                        0 <= column,
                        cell_index(self.width as int, row as int, column as int) == row
                            * self.width + column,
                ;
            }
            Some(self.cells[row * self.width + column])
        } else {
            None
        }
    }

    /// Puts `cell` in `row` and `column`. Outside the grid nothing is
    /// written.
    pub fn write(&mut self, row: usize, column: usize, cell: Cell)
        ensures
            final(self).spec_width() == old(self).spec_width(),
            final(self).spec_height() == old(self).spec_height(),
            final(self)@ == if old(self).holds(row as int, column as int) {
                old(self)@.update(cell_index(old(self).spec_width(), row as int, column as int), cell)
            } else {
                old(self)@
            },
            forall|r: int, c: int|
                old(self).holds(r, c) ==> #[trigger] final(self).at(r, c) == if r == row && c
                    == column {
                    cell
                } else {
                    old(self).at(r, c)
                },
        no_unwind
    {
        proof {
            use_type_invariant(&*self);
            let w = self.width as int;
            let h = self.height as int;
            assert forall|r: int, c: int| 0 <= r < h && 0 <= c < w implies 0 <= #[trigger] cell_index(
                w,
                r,
                c,
            ) < w * h && cell_index(w, r, c) / w == r && cell_index(w, r, c) % w == c by {
                lemma_cell_index(w, h, r, c);
            }
        }
        if row < self.height && column < self.width {
            let count = self.cells.len();
            proof {
                lemma_cell_index(self.width as int, self.height as int, row as int, column as int);
                assert(0 <= row * self.width <= cell_index(
                    self.width as int,
                    row as int,
                    column as int,
                )) by (nonlinear_arith)
                    requires
                        0 <= row,
                        0 <= self.width,
                        0 <= column,
                        cell_index(self.width as int, row as int, column as int) == row
                            * self.width + column,
                ;
            }
            let index = row * self.width + column;
            self.cells[index] = cell;
        }
    }

    /// Puts a copy of `cell` in every place of the grid.
    pub fn clear(&mut self, cell: Cell)
        ensures
            final(self).spec_width() == old(self).spec_width(),
            final(self).spec_height() == old(self).spec_height(),
            final(self)@.len() == old(self)@.len(),
            forall|i: int| 0 <= i < final(self)@.len() ==> final(self)@[i] == cell,
            forall|r: int, c: int| old(self).holds(r, c) ==> #[trigger] final(self).at(r, c) == cell,
        no_unwind
    {
        proof {
            use_type_invariant(&*self);
            let w = self.width as int;
            let h = self.height as int;
            assert forall|r: int, c: int| 0 <= r < h && 0 <= c < w implies 0 <= #[trigger] cell_index(
                w,
                r,
                c,
            ) < w * h by {
                lemma_cell_index(w, h, r, c);
            }
        }
        let count = self.cells.len();
        let mut index: usize = 0;
        while index < count
            invariant
                self.inv(),
                index <= count,
                count == self.cells@.len(),
                self.width == old(self).width,
                self.height == old(self).height,
                self.cells@.len() == old(self).cells@.len(),
                forall|i: int| 0 <= i < index ==> self.cells@[i] == cell,
            decreases count - index,
        {
            self.cells[index] = cell;
            index += 1;
        }
    }

    /// Moves every row up by one, dropping the first, and fills the last row
    /// with copies of `cell`.
    pub fn new_line(&mut self, cell: Cell)
        ensures
            final(self).spec_width() == old(self).spec_width(),
            final(self).spec_height() == old(self).spec_height(),
            final(self)@ == old(self)@.subrange(
                old(self).spec_width(),
                old(self)@.len() as int,
            ) + Seq::new(old(self).spec_width() as nat, |i: int| cell),
            forall|r: int, c: int|
                old(self).holds(r, c) ==> #[trigger] final(self).at(r, c) == if r + 1
                    < old(self).spec_height() {
                    old(self).at(r + 1, c)
                } else {
                    cell
                },
        no_unwind
    {
        proof {
            use_type_invariant(&*self);
            let w = self.width as int;
            let h = self.height as int;
            assert forall|r: int, c: int| 0 <= r < h && 0 <= c < w implies 0 <= #[trigger] cell_index(
                w,
                r,
                c,
            ) < w * h by {
                lemma_cell_index(w, h, r, c);
            }
            assert forall|r: int, c: int| cell_index(w, r + 1, c) == #[trigger] cell_index(w, r, c)
                + w by {
                assert((r + 1) * w == r * w + w) by (nonlinear_arith);
            }
            assert(w * h - w == (h - 1) * w) by (nonlinear_arith);
            assert forall|r: int, c: int| 0 <= r < h && 0 <= c < w && r + 1 >= h implies #[trigger] cell_index(
                w,
                r,
                c,
            ) + w >= w * h by {
                assert(r * w >= (h - 1) * w) by (nonlinear_arith)
                    requires
                        r >= h - 1,
                        w >= 0,
                ;
            }
            assert forall|r: int, c: int| 0 <= r < h && 0 <= c < w && r + 1 < h implies #[trigger] cell_index(
                w,
                r,
                c,
            ) + w < w * h by {
                lemma_cell_index(w, h, r + 1, c);
            }
            lemma_cell_index(
                self.width as int,
                self.height as int,
                self.height - 1,
                self.width - 1,
            );
        }
        let count = self.cells.len();
        let width = self.width;
        let ghost before = self.cells@;
        let mut index: usize = 0;
        while index < count
            invariant
                self.inv(),
                index <= count,
                1 <= width <= count,
                count == self.cells@.len(),
                before == old(self).cells@,
                count == before.len(),
                self.width == old(self).width,
                self.height == old(self).height,
                width == self.width,
                forall|i: int|
                    0 <= i < index ==> self.cells@[i] == if i + width < count {
                        before[i + width]
                    } else {
                        cell
                    },
                forall|i: int| index <= i < count ==> self.cells@[i] == before[i],
            decreases count - index,
        {
            let value = if index < count - width {
                self.cells[index + width]
            } else {
                cell
            };
            self.cells[index] = value;
            index += 1;
        }
        proof {
            let want = before.subrange(width as int, count as int) + Seq::new(
                width as nat,
                |i: int| cell,
            );
            assert(self.cells@ =~= want);
        }
    }
}

/// A cell of the grid has its position inside the grid.
pub proof fn lemma_cell_index(width: int, height: int, row: int, column: int)
    requires
        0 <= row < height,
        0 <= column < width,
    ensures
        0 <= cell_index(width, row, column) < width * height,
        cell_index(width, row, column) / width == row,
        cell_index(width, row, column) % width == column,
{
    assert(row * width + width <= height * width) by (nonlinear_arith)
        requires
            row + 1 <= height,
            width >= 0,
    ;
    assert(0 <= row * width) by (nonlinear_arith)
        requires
            0 <= row,
            0 <= width,
    ;
    assert(width * height == height * width) by (nonlinear_arith);
    vstd::arithmetic::div_mod::lemma_fundamental_div_mod_converse(
        row * width + column,
        width,
        row,
        column,
    );
}

} // verus!
