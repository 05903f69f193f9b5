//! The terminal proper: a cursor over a screen buffer, and what each call on
//! the terminal does to them.

use vstd::prelude::*;
use crate::terminal::ansi::{Attr, Command, Handler, LineClearMode, ScreenClearMode};
use crate::terminal::buffer::TerminalBuffer;
use crate::terminal::cell::{Cell, Flags, HIDDEN, INVERSE};

verus! {

/// A place on the screen.
#[derive(Clone, Copy, PartialEq, Eq, Structural, Debug)]
pub struct Cursor {
    pub row: usize,
    pub column: usize,
}

/// The state of a terminal: where the cursor is, where it was saved, how the
/// characters to come are shown, and the screen.
///
/// The cursor stays on the screen or one step beyond its last row or column.
pub struct ConsoleInner {
    cursor: Cursor,
    saved_cursor: Cursor,
    attribute_template: Cell,
    buffer: TerminalBuffer,
    record: Ghost<Seq<Command>>,
}

/// The smaller of two numbers.
pub open spec fn least(a: int, b: int) -> int {
    if a <= b {
        a
    } else {
        b
    }
}

/// `a - b`, or 0 where that is negative.
pub open spec fn monus(a: int, b: int) -> int {
    if a >= b {
        a - b
    } else {
        0
    }
}

/// The first column at or behind `column` that is a multiple of eight.
pub open spec fn tab_stop(column: int) -> int {
    ((column + 7) / 8) * 8
}

impl ConsoleInner {
    /// The cursor and the saved cursor are on the screen or one step beyond
    /// its last row or column.
    #[verifier::type_invariant]
    pub closed spec fn inv(self) -> bool {
        &&& self.cursor.row <= self.buffer.spec_height()
        &&& self.cursor.column <= self.buffer.spec_width()
        &&& self.saved_cursor.row <= self.buffer.spec_height()
        &&& self.saved_cursor.column <= self.buffer.spec_width()
    }

    /// Where the cursor is.
    pub closed spec fn cursor(self) -> Cursor {
        self.cursor
    }

    /// Where the cursor was saved.
    pub closed spec fn saved_cursor(self) -> Cursor {
        self.saved_cursor
    }

    /// How the characters to come are shown.
    pub closed spec fn template(self) -> Cell {
        self.attribute_template
    }

    /// The screen.
    pub closed spec fn buffer(self) -> TerminalBuffer {
        self.buffer
    }

    /// Number of cells in a row of the screen.
    pub open spec fn width(self) -> int {
        self.buffer().spec_width()
    }

    /// Number of rows of the screen.
    pub open spec fn height(self) -> int {
        self.buffer().spec_height()
    }

    /// Whether `self` differs from `before` in nothing but the cursor.
    pub open spec fn same_but_cursor(self, before: ConsoleInner) -> bool {
        &&& self.saved_cursor() == before.saved_cursor()
        &&& self.template() == before.template()
        &&& self.buffer()@ == before.buffer()@
        &&& self.width() == before.width()
        &&& self.height() == before.height()
    }

    /// Whether `self` differs from `before` in nothing but cells of the
    /// screen.
    pub open spec fn same_but_cells(self, before: ConsoleInner) -> bool {
        &&& self.cursor() == before.cursor()
        &&& self.saved_cursor() == before.saved_cursor()
        &&& self.template() == before.template()
        &&& self.width() == before.width()
        &&& self.height() == before.height()
    }

    /// A terminal over the screen `buffer`, with the cursor in the first
    /// place and characters shown as the default cell is.
    pub fn new(buffer: TerminalBuffer) -> (console: ConsoleInner)
        ensures
            console.cursor() == (Cursor { row: 0, column: 0 }),
            console.saved_cursor() == (Cursor { row: 0, column: 0 }),
            console.template() == Cell::spec_default(),
            console.buffer() == buffer,
            console.record() == Seq::<Command>::empty(),
    {
        proof {
            use_type_invariant(&buffer);
            buffer.lemma_shape();
        }
        ConsoleInner {
            cursor: Cursor { row: 0, column: 0 },
            saved_cursor: Cursor { row: 0, column: 0 },
            attribute_template: Cell::default(),
            buffer,
            record: Ghost(Seq::empty()),
        }
    }

    /// Where the cursor is.
    pub fn cursor_position(&self) -> (cursor: Cursor)
        ensures
            cursor == self.cursor(),
            cursor.row <= self.height(),
            cursor.column <= self.width(),
    {
        proof {
            use_type_invariant(self);
        }
        self.cursor
    }

    /// The cell in `row` and `column` of the screen, `None` outside it.
    pub fn read(&self, row: usize, column: usize) -> (r: Option<Cell>)
        ensures
            r.is_some() <==> self.buffer().holds(row as int, column as int),
            r.is_some() ==> r.unwrap() == self.buffer().at(row as int, column as int),
    {
        self.buffer.read(row, column)
    }

    /// Number of cells in a row of the screen.
    pub fn columns(&self) -> (n: usize)
        ensures
            n == self.width(),
    {
        self.buffer.width()
    }

    /// Number of rows of the screen.
    pub fn rows(&self) -> (n: usize)
        ensures
            n == self.height(),
    {
        self.buffer.height()
    }

    /// Puts `cell` in the columns from `from` up to, not including, `to` of
    /// `row`, as far as they are on the screen.
    fn fill(&mut self, row: usize, from: usize, to: usize, cell: Cell)
        ensures
            final(self).record() == old(self).record(),
            final(self).same_but_cells(*old(self)),
            forall|r: int, c: int|
                old(self).buffer().holds(r, c) ==> #[trigger] final(self).buffer().at(r, c) == if r == row
                    && from <= c < to {
                    cell
                } else {
                    old(self).buffer().at(r, c)
                },
    {
        proof {
            use_type_invariant(&*self);
        }
        let width = self.buffer.width();
        let end = if to < width {
            to
        } else {
            width
        };
        let mut column = from;
        while column < end
            invariant
                self.inv(),
                self.same_but_cells(*old(self)),
                self.record() == old(self).record(),
                end <= to,
                end <= self.width(),
                to > end ==> end == self.width(),
                from <= column,
                column <= end || column == from,
                forall|r: int, c: int|
                    old(self).buffer().holds(r, c) ==> #[trigger] self.buffer().at(r, c) == if r == row
                        && from <= c < column {
                        cell
                    } else {
                        old(self).buffer().at(r, c)
                    },
            decreases end - column,
        {
            self.buffer.write(row, column, cell);
            column += 1;
        }
    }

    /// Puts `cell` in every place of the rows from `from` up to, not
    /// including, `to`, as far as they are on the screen.
    fn fill_rows(&mut self, from: usize, to: usize, cell: Cell)
        ensures
            final(self).record() == old(self).record(),
            final(self).same_but_cells(*old(self)),
            forall|r: int, c: int|
                old(self).buffer().holds(r, c) ==> #[trigger] final(self).buffer().at(r, c) == if from <= r
                    < to {
                    cell
                } else {
                    old(self).buffer().at(r, c)
                },
    {
        proof {
            use_type_invariant(&*self);
        }
        let height = self.buffer.height();
        let width = self.buffer.width();
        let end = if to < height {
            to
        } else {
            height
        };
        let mut row = from;
        while row < end
            invariant
                self.inv(),
                self.same_but_cells(*old(self)),
                self.record() == old(self).record(),
                end <= to,
                end <= self.height(),
                width == self.width(),
                to > end ==> end == self.height(),
                from <= row,
                row <= end || row == from,
                forall|r: int, c: int|
                    old(self).buffer().holds(r, c) ==> #[trigger] self.buffer().at(r, c) == if from <= r
                        < row {
                        cell
                    } else {
                        old(self).buffer().at(r, c)
                    },
            decreases end - row,
        {
            self.fill(row, 0, width, cell);
            row += 1;
        }
    }

    /// Puts the cursor in `row` and `column`, or as near to them as it can
    /// be.
    fn place(&mut self, row: usize, column: usize)
        ensures
            final(self).record() == old(self).record(),
            final(self).same_but_cursor(*old(self)),
            final(self).cursor().row == least(row as int, old(self).height()),
            final(self).cursor().column == least(column as int, old(self).width()),
    {
        proof {
            use_type_invariant(&*self);
        }
        let height = self.buffer.height();
        let width = self.buffer.width();
        self.cursor.row = if row < height {
            row
        } else {
            height
        };
        self.cursor.column = if column < width {
            column
        } else {
            width
        };
    }

    /// Moves the cursor to the start of the next line. From the last line
    /// on, the screen moves up by one line in its place, and the new last
    /// line is filled as characters are shown.
    fn feed_line(&mut self)
        ensures
            final(self).record() == old(self).record(),
            final(self).saved_cursor() == old(self).saved_cursor(),
            final(self).template() == old(self).template(),
            final(self).width() == old(self).width(),
            final(self).height() == old(self).height(),
            final(self).cursor().column == 0,
            old(self).cursor().row + 1 < old(self).height() ==> final(self).cursor().row == old(self).cursor().row + 1 && final(self).buffer()@ == old(self).buffer()@,
            old(self).cursor().row + 1 >= old(self).height() ==> final(self).cursor().row == old(self).cursor().row && forall|r: int, c: int|
                old(self).buffer().holds(r, c) ==> #[trigger] final(self).buffer().at(r, c) == if r + 1
                    < old(self).height() {
                    old(self).buffer().at(r + 1, c)
                } else {
                    old(self).template()
                },
    {
        proof {
            use_type_invariant(&*self);
        }
        self.cursor.column = 0;
        if self.cursor.row < self.buffer.height() - 1 {
            self.cursor.row += 1;
        } else {
            let template = self.attribute_template;
            self.buffer.new_line(template);
        }
    }

    /// The row that lies `rows` below the cursor, or the last row.
    fn row_below(&self, rows: usize) -> (row: usize)
        ensures
            row == least(self.cursor().row + rows, self.height() - 1),
    {
        proof {
            use_type_invariant(self);
        }
        let last = self.buffer.height() - 1;
        if self.cursor.row >= last || rows >= last - self.cursor.row {
            last
        } else {
            self.cursor.row + rows
        }
    }
}

impl Handler for ConsoleInner {
    /// The calls made on this terminal so far, first to last.
    closed spec fn record(&self) -> Seq<Command> {
        self.record@
    }

    /// Takes note of a call and does nothing else.
    fn note(&mut self, command: Command)
        ensures
            final(self).cursor() == old(self).cursor(),
            final(self).saved_cursor() == old(self).saved_cursor(),
            final(self).template() == old(self).template(),
            final(self).buffer() == old(self).buffer(),
    {
        proof {
            use_type_invariant(&*self);
        }
        self.record = Ghost(self.record@.push(command));
    }

    /// Shows `content` at the cursor and moves the cursor one column on. A
    /// cursor behind the last column goes to the start of the next line
    /// first.
    fn input(&mut self, content: char)
        ensures
            final(self).saved_cursor() == old(self).saved_cursor(),
            final(self).template() == old(self).template(),
            final(self).width() == old(self).width(),
            final(self).height() == old(self).height(),
            old(self).cursor().column < old(self).width() ==> {
                &&& final(self).cursor() == (Cursor {
                    row: old(self).cursor().row,
                    column: (old(self).cursor().column + 1) as usize,
                })
                &&& forall|r: int, c: int|
                    old(self).buffer().holds(r, c) ==> #[trigger] final(self).buffer().at(r, c) == if r
                        == old(self).cursor().row && c == old(self).cursor().column {
                        Cell { content, ..old(self).template() }
                    } else {
                        old(self).buffer().at(r, c)
                    }
            },
            old(self).cursor().column >= old(self).width() ==> {
                let scrolls = old(self).cursor().row + 1 >= old(self).height();
                &&& final(self).cursor().column == 1
                &&& final(self).cursor().row == if scrolls {
                    old(self).cursor().row as int
                } else {
                    old(self).cursor().row + 1
                }
                &&& forall|r: int, c: int|
                    old(self).buffer().holds(r, c) ==> #[trigger] final(self).buffer().at(r, c)
                        == if r == final(self).cursor().row && c == 0 {
                        Cell { content, ..old(self).template() }
                    } else if !scrolls {
                        old(self).buffer().at(r, c)
                    } else if r + 1 < old(self).height() {
                        old(self).buffer().at(r + 1, c)
                    } else {
                        old(self).template()
                    }
            },
    {
        proof {
            use_type_invariant(&*self);
        }
        if self.cursor.column >= self.buffer.width() {
            self.cursor.column = 0;
            self.feed_line();
        }
        proof {
            use_type_invariant(&*self);
        }
        let ghost between = self.buffer;
        let template = self.attribute_template.with_content(content);
        self.buffer.write(self.cursor.row, self.cursor.column, template);
        self.cursor.column += 1;
        proof {
            assert forall|r: int, c: int| old(self).buffer().holds(r, c) implies between.holds(
                r,
                c,
            ) by {}
        }
        proof {
            use_type_invariant(&*self);
        }
        self.note(Command::Input(content));
    }

    /// Puts the cursor in `row` and `col`, or as near to them as it can be.
    fn goto(&mut self, row: usize, col: usize)
        ensures
            final(self).same_but_cursor(*old(self)),
            final(self).cursor().row == least(row as int, old(self).height()),
            final(self).cursor().column == least(col as int, old(self).width()),
    {
        self.place(row, col);
        self.note(Command::Goto(row, col));
    }

    /// Puts the cursor in `row`, or as near to it as it can be.
    fn goto_row(&mut self, row: usize)
        ensures
            final(self).same_but_cursor(*old(self)),
            final(self).cursor().row == least(row as int, old(self).height()),
            final(self).cursor().column == old(self).cursor().column,
    {
        proof {
            use_type_invariant(&*self);
        }
        let column = self.cursor.column;
        self.place(row, column);
        self.note(Command::GotoRow(row));
    }

    /// Puts the cursor in column `col`, or as near to it as it can be.
    fn goto_column(&mut self, col: usize)
        ensures
            final(self).same_but_cursor(*old(self)),
            final(self).cursor().row == old(self).cursor().row,
            final(self).cursor().column == least(col as int, old(self).width()),
    {
        proof {
            use_type_invariant(&*self);
        }
        let row = self.cursor.row;
        self.place(row, col);
        self.note(Command::GotoColumn(col));
    }

    /// Moves the cursor up by `rows`, to the first row at most.
    fn move_up(&mut self, rows: usize)
        ensures
            final(self).same_but_cursor(*old(self)),
            final(self).cursor().row == monus(old(self).cursor().row as int, rows as int),
            final(self).cursor().column == old(self).cursor().column,
    {
        proof {
            use_type_invariant(&*self);
        }
        let row = self.cursor.row.saturating_sub(rows);
        let column = self.cursor.column;
        self.place(row, column);
        self.note(Command::MoveUp(rows));
    }

    /// Moves the cursor down by `rows`, to the last row at most.
    fn move_down(&mut self, rows: usize)
        ensures
            final(self).same_but_cursor(*old(self)),
            final(self).cursor().row == least(
                old(self).cursor().row + rows,
                old(self).height() - 1,
            ),
            final(self).cursor().column == old(self).cursor().column,
    {
        proof {
            use_type_invariant(&*self);
        }
        let row = self.row_below(rows);
        let column = self.cursor.column;
        self.place(row, column);
        self.note(Command::MoveDown(rows));
    }

    /// Moves the cursor right by `cols`, to the last column at most.
    fn move_forward(&mut self, cols: usize)
        ensures
            final(self).same_but_cursor(*old(self)),
            final(self).cursor().row == old(self).cursor().row,
            final(self).cursor().column == least(
                old(self).cursor().column + cols,
                old(self).width() - 1,
            ),
    {
        proof {
            use_type_invariant(&*self);
        }
        let last = self.buffer.width() - 1;
        if self.cursor.column >= last || cols >= last - self.cursor.column {
            self.cursor.column = last;
        } else {
            self.cursor.column = self.cursor.column + cols;
        }
        self.note(Command::MoveForward(cols));
    }

    /// Moves the cursor left by `cols`, to the first column at most.
    fn move_backward(&mut self, cols: usize)
        ensures
            final(self).same_but_cursor(*old(self)),
            final(self).cursor().row == old(self).cursor().row,
            final(self).cursor().column == monus(old(self).cursor().column as int, cols as int),
    {
        proof {
            use_type_invariant(&*self);
        }
        self.cursor.column = self.cursor.column.saturating_sub(cols);
        self.note(Command::MoveBackward(cols));
    }

    /// Moves the cursor down by `rows`, to the last row at most, and to the
    /// first column.
    fn move_down_and_cr(&mut self, rows: usize)
        ensures
            final(self).same_but_cursor(*old(self)),
            final(self).cursor().row == least(
                old(self).cursor().row + rows,
                old(self).height() - 1,
            ),
            final(self).cursor().column == 0,
    {
        let row = self.row_below(rows);
        self.place(row, 0);
        self.note(Command::MoveDownAndCr(rows));
    }

    /// Moves the cursor up by `rows`, to the first row at most, and to the
    /// first column.
    fn move_up_and_cr(&mut self, rows: usize)
        ensures
            final(self).same_but_cursor(*old(self)),
            final(self).cursor().row == monus(old(self).cursor().row as int, rows as int),
            final(self).cursor().column == 0,
    {
        proof {
            use_type_invariant(&*self);
        }
        let row = self.cursor.row.saturating_sub(rows);
        self.place(row, 0);
        self.note(Command::MoveUpAndCr(rows));
    }

    /// Blanks the cells from the cursor up to the next tab stop, or to the
    /// end of the line, and puts the cursor there. A cursor on a tab stop
    /// stays.
    fn put_tab(&mut self)
        ensures
            final(self).saved_cursor() == old(self).saved_cursor(),
            final(self).template() == old(self).template(),
            final(self).width() == old(self).width(),
            final(self).height() == old(self).height(),
            final(self).cursor().row == old(self).cursor().row,
            final(self).cursor().column == least(
                tab_stop(old(self).cursor().column as int),
                old(self).width(),
            ),
            forall|r: int, c: int|
                old(self).buffer().holds(r, c) ==> #[trigger] final(self).buffer().at(r, c) == if r
                    == old(self).cursor().row && old(self).cursor().column <= c < final(self).cursor().column {
                    old(self).template().spec_reset()
                } else {
                    old(self).buffer().at(r, c)
                },
    {
        proof {
            use_type_invariant(&*self);
        }
        let width = self.buffer.width();
        let column = self.cursor.column;
        let stop = if column > usize::MAX - 7 {
            width
        } else {
            (column + 7) / 8 * 8
        };
        let end = if stop < width {
            stop
        } else {
            width
        };
        let template = self.attribute_template.reset();
        let row = self.cursor.row;
        self.fill(row, column, end, template);
        proof {
            use_type_invariant(&*self);
        }
        self.cursor.column = end;
        self.note(Command::PutTab);
    }

    /// Moves the cursor one column left, unless it is in the first.
    fn backspace(&mut self)
        ensures
            final(self).same_but_cursor(*old(self)),
            final(self).cursor().row == old(self).cursor().row,
            final(self).cursor().column == monus(old(self).cursor().column as int, 1),
    {
        proof {
            use_type_invariant(&*self);
        }
        self.cursor.column = self.cursor.column.saturating_sub(1);
        self.note(Command::Backspace);
    }

    /// Moves the cursor to the first column.
    fn carriage_return(&mut self)
        ensures
            final(self).same_but_cursor(*old(self)),
            final(self).cursor().row == old(self).cursor().row,
            final(self).cursor().column == 0,
    {
        proof {
            use_type_invariant(&*self);
        }
        self.cursor.column = 0;
        self.note(Command::CarriageReturn);
    }

    /// Moves the cursor to the start of the next line. From the last line
    /// on, the screen moves up by one line in its place, and the new last
    /// line is filled as characters are shown.
    fn linefeed(&mut self)
        ensures
            final(self).saved_cursor() == old(self).saved_cursor(),
            final(self).template() == old(self).template(),
            final(self).width() == old(self).width(),
            final(self).height() == old(self).height(),
            final(self).cursor().column == 0,
            old(self).cursor().row + 1 < old(self).height() ==> final(self).cursor().row == old(self).cursor().row + 1 && final(self).buffer()@ == old(self).buffer()@,
            old(self).cursor().row + 1 >= old(self).height() ==> final(self).cursor().row == old(self).cursor().row && forall|r: int, c: int|
                old(self).buffer().holds(r, c) ==> #[trigger] final(self).buffer().at(r, c) == if r + 1
                    < old(self).height() {
                    old(self).buffer().at(r + 1, c)
                } else {
                    old(self).template()
                },
    {
        self.feed_line();
        self.note(Command::Linefeed);
    }

    /// Blanks `count` cells from the cursor on, to the end of the line at
    /// most.
    fn erase_chars(&mut self, count: usize)
        ensures
            final(self).same_but_cells(*old(self)),
            forall|r: int, c: int|
                old(self).buffer().holds(r, c) ==> #[trigger] final(self).buffer().at(r, c) == if r
                    == old(self).cursor().row && old(self).cursor().column <= c < old(self).cursor().column + count {
                    old(self).template().spec_reset()
                } else {
                    old(self).buffer().at(r, c)
                },
    {
        proof {
            use_type_invariant(&*self);
        }
        let start = self.cursor.column;
        let width = self.buffer.width();
        let end = if count >= width - start {
            width
        } else {
            start + count
        };
        let template = self.attribute_template.reset();
        let row = self.cursor.row;
        self.fill(row, start, end, template);
        self.note(Command::EraseChars(count));
    }

    /// Takes `count` cells out of the line at the cursor, all but the last
    /// cell of the line at most: the cells behind them move left by that
    /// many places, and the places at and behind the first cell moved are
    /// blanked unless a cell moved there. With nothing to take, the line is
    /// blanked from the cursor on. The cursor may stand one step behind the
    /// last column, where it is after the last cell of a line was written:
    /// this state is admitted, nothing is taken there and nothing changes.
    fn delete_chars(&mut self, count: usize)
        ensures
            final(self).same_but_cells(*old(self)),
            ({
                let row = old(self).cursor().row as int;
                let column = old(self).cursor().column as int;
                let taken = least(count as int, monus(old(self).width() - column, 1));
                forall|r: int, c: int|
                    old(self).buffer().holds(r, c) ==> #[trigger] final(self).buffer().at(r, c)
                        == if r != row || c < column {
                        old(self).buffer().at(r, c)
                    } else if taken > 0 && c + taken < old(self).width() {
                        old(self).buffer().at(r, c + taken)
                    } else if c >= column + taken {
                        old(self).template().spec_reset()
                    } else {
                        old(self).buffer().at(r, c)
                    }
            }),
    {
        proof {
            use_type_invariant(&*self);
        }
        let row = self.cursor.row;
        let columns = self.buffer.width();
        let start = self.cursor.column;
        let most = (columns - start).saturating_sub(1);
        let taken = if count < most {
            count
        } else {
            most
        };
        let template = self.attribute_template.reset();
        let mut column = start + taken;
        while column < columns
            invariant
                self.inv(),
                self.same_but_cells(*old(self)),
                self.record() == old(self).record(),
                row == old(self).cursor().row,
                start == old(self).cursor().column,
                columns == old(self).width(),
                template == old(self).template().spec_reset(),
                start + taken <= column,
                start + taken <= columns,
                column <= columns,
                taken == least(count as int, monus(columns - start, 1)),
                forall|r: int, c: int|
                    old(self).buffer().holds(r, c) ==> #[trigger] self.buffer().at(r, c) == if r == row
                        && start <= c && c + taken < column && taken > 0 {
                        old(self).buffer().at(r, c + taken)
                    } else if r == row && start + taken <= c < column {
                        template
                    } else {
                        old(self).buffer().at(r, c)
                    },
            decreases columns - column,
        {
            let ghost before = self.buffer;
            let moved = match self.buffer.read(row, column) {
                Some(cell) => cell,
                None => template,
            };
            self.buffer.write(row, column - taken, moved);
            let ghost between = self.buffer;
            self.buffer.write(row, column, template);
            proof {
                assert forall|r: int, c: int| old(self).buffer().holds(r, c) implies #[trigger] self.buffer().at(
                    r,
                    c,
                ) == if r == row && start <= c && c + taken < column + 1 && taken > 0 {
                    old(self).buffer().at(r, c + taken)
                } else if r == row && start + taken <= c < column + 1 {
                    template
                } else {
                    old(self).buffer().at(r, c)
                } by {
                    assert(before.holds(r, c));
                    assert(between.holds(r, c));
                    if r == row {
                        assert(before.holds(r, column as int));
                        assert(before.at(r, column as int) == old(self).buffer().at(
                            r,
                            column as int,
                        ));
                    }
                }
            }
            column += 1;
        }
        self.note(Command::DeleteChars(count));
    }

    /// Remembers where the cursor is.
    fn save_cursor_position(&mut self)
        ensures
            final(self).saved_cursor() == old(self).cursor(),
            final(self).cursor() == old(self).cursor(),
            final(self).template() == old(self).template(),
            final(self).buffer() == old(self).buffer(),
    {
        proof {
            use_type_invariant(&*self);
        }
        self.saved_cursor = self.cursor;
        self.note(Command::SaveCursorPosition);
    }

    /// Puts the cursor where it was remembered.
    fn restore_cursor_position(&mut self)
        ensures
            final(self).cursor() == old(self).saved_cursor(),
            final(self).saved_cursor() == old(self).saved_cursor(),
            final(self).template() == old(self).template(),
            final(self).buffer() == old(self).buffer(),
    {
        proof {
            use_type_invariant(&*self);
        }
        self.cursor = self.saved_cursor;
        self.note(Command::RestoreCursorPosition);
    }

    /// Blanks the line of the cursor: from the cursor on, up to and with the
    /// cursor, or all of it.
    fn clear_line(&mut self, mode: LineClearMode)
        ensures
            final(self).same_but_cells(*old(self)),
            forall|r: int, c: int|
                old(self).buffer().holds(r, c) ==> #[trigger] final(self).buffer().at(r, c) == if r
                    == old(self).cursor().row && match mode {
                    LineClearMode::Right => old(self).cursor().column <= c,
                    LineClearMode::Left => c <= old(self).cursor().column,
                    LineClearMode::All => true,
                } {
                    old(self).template().spec_reset()
                } else {
                    old(self).buffer().at(r, c)
                },
    {
        proof {
            use_type_invariant(&*self);
        }
        let width = self.buffer.width();
        let (start, end) = match mode {
            LineClearMode::Right => (self.cursor.column, width),
            LineClearMode::Left => (0, if self.cursor.column < width {
                self.cursor.column + 1
            } else {
                width
            }),
            LineClearMode::All => (0, width),
        };
        let template = self.attribute_template.reset();
        let row = self.cursor.row;
        self.fill(row, start, end, template);
        self.note(Command::ClearLine(mode));
    }

    /// Blanks the screen above the cursor, or from the cursor on, or all of
    /// it; all of it with the cursor put in the first place.
    fn clear_screen(&mut self, mode: ScreenClearMode)
        ensures
            final(self).saved_cursor() == old(self).saved_cursor(),
            final(self).template() == old(self).template(),
            final(self).width() == old(self).width(),
            final(self).height() == old(self).height(),
            final(self).cursor() == if mode == ScreenClearMode::All {
                Cursor { row: 0, column: 0 }
            } else {
                old(self).cursor()
            },
            forall|r: int, c: int|
                old(self).buffer().holds(r, c) ==> #[trigger] final(self).buffer().at(r, c) == if match mode {
                    ScreenClearMode::Above => r < old(self).cursor().row || r == old(self).cursor().row && c < old(self).cursor().column,
                    ScreenClearMode::Below => r > old(self).cursor().row || r == old(self).cursor().row && c >= old(self).cursor().column,
                    ScreenClearMode::All => true,
                    ScreenClearMode::Saved => false,
                } {
                    old(self).template().spec_reset()
                } else {
                    old(self).buffer().at(r, c)
                },
    {
        proof {
            use_type_invariant(&*self);
        }
        let template = self.attribute_template.reset();
        let row = self.cursor.row;
        let column = self.cursor.column;
        let width = self.buffer.width();
        let height = self.buffer.height();
        match mode {
            ScreenClearMode::Above => {
                self.fill_rows(0, row, template);
                self.fill(row, 0, column, template);
            },
            ScreenClearMode::Below => {
                self.fill(row, column, width, template);
                if row < height {
                    self.fill_rows(row + 1, height, template);
                }
            },
            ScreenClearMode::All => {
                self.buffer.clear(template);
                self.cursor = Cursor { row: 0, column: 0 };
            },
            ScreenClearMode::Saved => {},
        }
        self.note(Command::ClearScreen(mode));
    }

    /// Changes how the characters to come are shown.
    fn terminal_attribute(&mut self, attr: Attr)
        ensures
            final(self).cursor() == old(self).cursor(),
            final(self).saved_cursor() == old(self).saved_cursor(),
            final(self).buffer() == old(self).buffer(),
            final(self).template() == match attr {
                Attr::Foreground(color) => Cell { foreground: color, ..old(self).template() },
                Attr::Background(color) => Cell { background: color, ..old(self).template() },
                Attr::Reset => Cell::spec_default(),
                Attr::Reverse => Cell {
                    flags: Flags { bits: old(self).template().flags.bits | INVERSE },
                    ..old(self).template()
                },
                Attr::CancelReverse => Cell {
                    flags: Flags { bits: old(self).template().flags.bits & !INVERSE },
                    ..old(self).template()
                },
                Attr::Hidden => Cell {
                    flags: Flags { bits: old(self).template().flags.bits | HIDDEN },
                    ..old(self).template()
                },
                Attr::CancelHidden => Cell {
                    flags: Flags { bits: old(self).template().flags.bits & !HIDDEN },
                    ..old(self).template()
                },
            },
    {
        proof {
            use_type_invariant(&*self);
        }
        let mut template = self.attribute_template;
        match attr {
            Attr::Foreground(color) => {
                template.foreground = color;
            },
            Attr::Background(color) => {
                template.background = color;
            },
            Attr::Reset => {
                template = Cell::default();
            },
            Attr::Reverse => {
                template.flags.insert(INVERSE);
            },
            Attr::CancelReverse => {
                template.flags.remove(INVERSE);
            },
            Attr::Hidden => {
                template.flags.insert(HIDDEN);
            },
            Attr::CancelHidden => {
                template.flags.remove(HIDDEN);
            },
        }
        self.attribute_template = template;
        self.note(Command::TerminalAttribute(attr));
    }
}

} // verus!
