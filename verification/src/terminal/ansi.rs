//! Escape sequences: from what the parser of the byte stream reports to the
//! calls on the terminal that they stand for.

use vstd::prelude::*;
use crate::terminal::color::Color;

verus! {

/// Which part of the line of the cursor is cleared.
#[derive(Clone, Copy, PartialEq, Eq, Structural, Debug)]
pub enum LineClearMode {
    Right,
    Left,
    All,
}

/// Which part of the screen is cleared.
#[derive(Clone, Copy, PartialEq, Eq, Structural, Debug)]
pub enum ScreenClearMode {
    Below,
    Above,
    All,
    Saved,
}

/// A change of how the characters to come are shown.
#[derive(Clone, Copy, PartialEq, Eq, Debug)]
pub enum Attr {
    Reset,
    Reverse,
    Hidden,
    CancelReverse,
    CancelHidden,
    Foreground(Color),
    Background(Color),
}

/// One call on a terminal, with its arguments.
#[derive(Clone, Copy, PartialEq, Eq, Debug)]
pub enum Command {
    Input(char),
    Goto(usize, usize),
    GotoRow(usize),
    GotoColumn(usize),
    MoveUp(usize),
    MoveDown(usize),
    MoveForward(usize),
    MoveBackward(usize),
    MoveDownAndCr(usize),
    MoveUpAndCr(usize),
    PutTab,
    Backspace,
    CarriageReturn,
    Linefeed,
    EraseChars(usize),
    DeleteChars(usize),
    SaveCursorPosition,
    RestoreCursorPosition,
    ClearLine(LineClearMode),
    ClearScreen(ScreenClearMode),
    TerminalAttribute(Attr),
}

/// What a terminal does, and the record of what was asked of it. Each
/// method stands for one call, which it adds to the record. Unless a terminal
/// says otherwise, a method only takes note of its call.
pub trait Handler {
    /// The calls made on the terminal so far, first to last.
    open spec fn record(&self) -> Seq<Command> {
        Seq::empty()
    }

    /// Takes note of a call for which the terminal does nothing else.
    fn note(&mut self, command: Command)
        ensures
            final(self).record() == old(self).record().push(command),
    ;

    /// Shows a character at the cursor.
    fn input(&mut self, content: char)
        ensures
            final(self).record() == old(self).record().push(Command::Input(content)),
    {
        self.note(Command::Input(content));
    }

    /// Puts the cursor in a row and a column.
    fn goto(&mut self, row: usize, col: usize)
        ensures
            final(self).record() == old(self).record().push(Command::Goto(row, col)),
    {
        self.note(Command::Goto(row, col));
    }

    /// Puts the cursor in a row.
    fn goto_row(&mut self, row: usize)
        ensures
            final(self).record() == old(self).record().push(Command::GotoRow(row)),
    {
        self.note(Command::GotoRow(row));
    }

    /// Puts the cursor in a column.
    fn goto_column(&mut self, col: usize)
        ensures
            final(self).record() == old(self).record().push(Command::GotoColumn(col)),
    {
        self.note(Command::GotoColumn(col));
    }

    /// Moves the cursor up.
    fn move_up(&mut self, rows: usize)
        ensures
            final(self).record() == old(self).record().push(Command::MoveUp(rows)),
    {
        self.note(Command::MoveUp(rows));
    }

    /// Moves the cursor down.
    fn move_down(&mut self, rows: usize)
        ensures
            final(self).record() == old(self).record().push(Command::MoveDown(rows)),
    {
        self.note(Command::MoveDown(rows));
    }

    /// Moves the cursor right.
    fn move_forward(&mut self, cols: usize)
        ensures
            final(self).record() == old(self).record().push(Command::MoveForward(cols)),
    {
        self.note(Command::MoveForward(cols));
    }

    /// Moves the cursor left.
    fn move_backward(&mut self, cols: usize)
        ensures
            final(self).record() == old(self).record().push(Command::MoveBackward(cols)),
    {
        self.note(Command::MoveBackward(cols));
    }

    /// Moves the cursor down and to the first column.
    fn move_down_and_cr(&mut self, rows: usize)
        ensures
            final(self).record() == old(self).record().push(Command::MoveDownAndCr(rows)),
    {
        self.note(Command::MoveDownAndCr(rows));
    }

    /// Moves the cursor up and to the first column.
    fn move_up_and_cr(&mut self, rows: usize)
        ensures
            final(self).record() == old(self).record().push(Command::MoveUpAndCr(rows)),
    {
        self.note(Command::MoveUpAndCr(rows));
    }

    /// Moves the cursor to the next tab stop.
    fn put_tab(&mut self)
        ensures
            final(self).record() == old(self).record().push(Command::PutTab),
    {
        self.note(Command::PutTab);
    }

    /// Moves the cursor one column left.
    fn backspace(&mut self)
        ensures
            final(self).record() == old(self).record().push(Command::Backspace),
    {
        self.note(Command::Backspace);
    }

    /// Moves the cursor to the first column.
    fn carriage_return(&mut self)
        ensures
            final(self).record() == old(self).record().push(Command::CarriageReturn),
    {
        self.note(Command::CarriageReturn);
    }

    /// Moves the cursor to the next line.
    fn linefeed(&mut self)
        ensures
            final(self).record() == old(self).record().push(Command::Linefeed),
    {
        self.note(Command::Linefeed);
    }

    /// Blanks characters from the cursor on.
    fn erase_chars(&mut self, count: usize)
        ensures
            final(self).record() == old(self).record().push(Command::EraseChars(count)),
    {
        self.note(Command::EraseChars(count));
    }

    /// Takes characters out of the line at the cursor.
    fn delete_chars(&mut self, count: usize)
        ensures
            final(self).record() == old(self).record().push(Command::DeleteChars(count)),
    {
        self.note(Command::DeleteChars(count));
    }

    /// Remembers where the cursor is.
    fn save_cursor_position(&mut self)
        ensures
            final(self).record() == old(self).record().push(Command::SaveCursorPosition),
    {
        self.note(Command::SaveCursorPosition);
    }

    /// Puts the cursor where it was remembered.
    fn restore_cursor_position(&mut self)
        ensures
            final(self).record() == old(self).record().push(Command::RestoreCursorPosition),
    {
        self.note(Command::RestoreCursorPosition);
    }

    /// Blanks a part of the line of the cursor.
    fn clear_line(&mut self, mode: LineClearMode)
        ensures
            final(self).record() == old(self).record().push(Command::ClearLine(mode)),
    {
        self.note(Command::ClearLine(mode));
    }

    /// Blanks a part of the screen.
    fn clear_screen(&mut self, mode: ScreenClearMode)
        ensures
            final(self).record() == old(self).record().push(Command::ClearScreen(mode)),
    {
        self.note(Command::ClearScreen(mode));
    }

    /// Changes how the characters to come are shown.
    fn terminal_attribute(&mut self, attr: Attr)
        ensures
            final(self).record() == old(self).record().push(Command::TerminalAttribute(attr)),
    {
        self.note(Command::TerminalAttribute(attr));
    }
}

/// The value of a parameter: the first of its numbers, 0 when it has none.
pub open spec fn first_value(param: Seq<u16>) -> u16 {
    if param.len() > 0 {
        param[0]
    } else {
        0
    }
}

/// The value of the parameter at `index`, or `default` where there is no such
/// parameter or its value is 0.
pub open spec fn param_or(params: Seq<Vec<u16>>, index: int, default: u16) -> usize {
    if 0 <= index < params.len() && first_value(params[index]@) != 0 {
        first_value(params[index]@) as usize
    } else {
        default as usize
    }
}

/// The colour that a run of numbers names, and how many of the numbers were
/// taken for it. The run starts with 2, followed by red, green and blue, or
/// with 5, followed by a palette entry. Numbers are taken up to the first
/// that is missing or does not fit a byte, and no colour is named then.
pub open spec fn color_spec(values: Seq<u16>) -> (Option<Color>, nat) {
    if values.len() == 0 {
        (None, 0)
    } else if values[0] == 2 {
        if values.len() < 2 {
            (None, 1)
        } else if values[1] > 255 || values.len() < 3 {
            (None, 2)
        } else if values[2] > 255 || values.len() < 4 {
            (None, 3)
        } else if values[3] > 255 {
            (None, 4)
        } else {
            (Some(Color::Rgb((values[1] as u8, values[2] as u8, values[3] as u8))), 4)
        }
    } else if values[0] == 5 {
        if values.len() < 2 {
            (None, 1)
        } else if values[1] > 255 {
            (None, 2)
        } else {
            (Some(Color::Indexed(values[1] as u8)), 2)
        }
    } else {
        (None, 1)
    }
}

/// The values of the parameters from `from` on.
pub open spec fn firsts(params: Seq<Vec<u16>>, from: int) -> Seq<u16> {
    Seq::new((params.len() - from) as nat, |i: int| first_value(params[from + i]@))
}

/// The numbers that name the colour in a parameter that holds 38 or 48 and
/// the colour with it: the number behind the 38 or 48, and those that follow
/// it, but for the one directly behind it when more than three follow.
pub open spec fn sub_values(param: Seq<u16>) -> Seq<u16> {
    let rest = param.subrange(1, param.len() as int);
    let start: int = if rest.len() > 4 {
        2
    } else {
        1
    };
    seq![rest[0]] + rest.subrange(start, rest.len() as int)
}

/// The attribute that a parameter with the single number `value` stands for,
/// when it stands for one by itself.
pub open spec fn simple_attr(value: u16) -> Option<Attr> {
    if value == 0 {
        Some(Attr::Reset)
    } else if value == 7 {
        Some(Attr::Reverse)
    } else if value == 8 {
        Some(Attr::Hidden)
    } else if value == 27 {
        Some(Attr::CancelReverse)
    } else if value == 28 {
        Some(Attr::CancelHidden)
    } else if 30 <= value <= 37 {
        Some(Attr::Foreground(Color::Indexed((value - 30) as u8)))
    } else if value == 39 {
        Some(Attr::Foreground(Color::Indexed(15)))
    } else if 40 <= value <= 47 {
        Some(Attr::Background(Color::Indexed((value - 40) as u8)))
    } else if value == 49 {
        Some(Attr::Background(Color::Indexed(0)))
    } else if 90 <= value <= 97 {
        Some(Attr::Foreground(Color::Indexed((value - 90 + 8) as u8)))
    } else if 100 <= value <= 107 {
        Some(Attr::Background(Color::Indexed((value - 100 + 8) as u8)))
    } else {
        None
    }
}

/// The attribute that sets `color` as the foreground, for 38, or as the
/// background.
pub open spec fn color_attr(selector: u16, color: Option<Color>) -> Seq<Attr> {
    match color {
        Some(color) => if selector == 38 {
            seq![Attr::Foreground(color)]
        } else {
            seq![Attr::Background(color)]
        },
        None => Seq::empty(),
    }
}

/// The attributes that the parameters of a graphic-rendition sequence stand
/// for, from the parameter at `from` on. A parameter that is 38 or 48 alone
/// takes its colour from the parameters behind it; one that starts with 38 or
/// 48 holds its colour itself. A parameter that stands for nothing is passed
/// over.
pub open spec fn sgr_spec(params: Seq<Vec<u16>>, from: int) -> Seq<Attr>
    decreases params.len() - from,
{
    if from < 0 || from >= params.len() {
        Seq::empty()
    } else {
        let param = params[from]@;
        if param.len() == 1 && (param[0] == 38 || param[0] == 48) {
            let (color, used) = color_spec(firsts(params, from + 1));
            color_attr(param[0], color) + sgr_spec(params, from + 1 + used)
        } else if param.len() == 1 {
            match simple_attr(param[0]) {
                Some(attr) => seq![attr] + sgr_spec(params, from + 1),
                None => sgr_spec(params, from + 1),
            }
        } else if param.len() > 1 && (param[0] == 38 || param[0] == 48) {
            color_attr(param[0], color_spec(sub_values(param)).0) + sgr_spec(params, from + 1)
        } else {
            sgr_spec(params, from + 1)
        }
    }
}

/// The calls that set the attributes `attrs`, one after the other.
pub open spec fn attribute_commands(attrs: Seq<Attr>) -> Seq<Command> {
    Seq::new(attrs.len(), |i: int| Command::TerminalAttribute(attrs[i]))
}

/// The calls that a control sequence stands for. A sequence that the parser
/// marks to be ignored, or that has more than one intermediate byte, stands
/// for none, and so does one with an intermediate byte unless it sets
/// attributes. A parameter that is missing or 0 counts as 1 where it is a
/// distance or a position, and positions are counted from 1.
pub open spec fn csi_spec(
    params: Seq<Vec<u16>>,
    intermediates: Seq<u8>,
    ignore: bool,
    action: char,
) -> Seq<Command> {
    let one = param_or(params, 0, 1);
    let mode = param_or(params, 0, 0);
    if ignore || intermediates.len() > 1 {
        Seq::empty()
    } else if action == 'm' {
        if params.len() == 0 {
            seq![Command::TerminalAttribute(Attr::Reset)]
        } else {
            attribute_commands(sgr_spec(params, 0))
        }
    } else if intermediates.len() != 0 {
        Seq::empty()
    } else if action == 'A' {
        seq![Command::MoveUp(one)]
    } else if action == 'B' || action == 'e' {
        seq![Command::MoveDown(one)]
    } else if action == 'C' || action == 'a' {
        seq![Command::MoveForward(one)]
    } else if action == 'D' {
        seq![Command::MoveBackward(one)]
    } else if action == 'E' {
        seq![Command::MoveDownAndCr(one)]
    } else if action == 'F' {
        seq![Command::MoveUpAndCr(one)]
    } else if action == 'G' || action == '`' {
        seq![Command::GotoColumn((one - 1) as usize)]
    } else if action == 'H' || action == 'f' {
        seq![Command::Goto((one - 1) as usize, (param_or(params, 1, 1) - 1) as usize)]
    } else if action == 'J' {
        if mode == 0 {
            seq![Command::ClearScreen(ScreenClearMode::Below)]
        } else if mode == 1 {
            seq![Command::ClearScreen(ScreenClearMode::Above)]
        } else if mode == 2 {
            seq![Command::ClearScreen(ScreenClearMode::All)]
        } else if mode == 3 {
            seq![Command::ClearScreen(ScreenClearMode::Saved)]
        } else {
            Seq::empty()
        }
    } else if action == 'K' {
        if mode == 0 {
            seq![Command::ClearLine(LineClearMode::Right)]
        } else if mode == 1 {
            seq![Command::ClearLine(LineClearMode::Left)]
        } else if mode == 2 {
            seq![Command::ClearLine(LineClearMode::All)]
        } else {
            Seq::empty()
        }
    } else if action == 'P' {
        seq![Command::DeleteChars(one)]
    } else if action == 'X' {
        seq![Command::EraseChars(one)]
    } else if action == 'd' {
        seq![Command::GotoRow((one - 1) as usize)]
    } else {
        Seq::empty()
    }
}

/// The call that a control byte stands for: backspace, tab, line feed or
/// carriage return.
pub open spec fn execute_spec(byte: u8) -> Option<Command> {
    if byte == 0x08 {
        Some(Command::Backspace)
    } else if byte == 0x09 {
        Some(Command::PutTab)
    } else if byte == 0x0A {
        Some(Command::Linefeed)
    } else if byte == 0x0D {
        Some(Command::CarriageReturn)
    } else {
        None
    }
}

/// The call that an escape sequence without intermediate bytes stands for:
/// `7` saves the cursor and `8` restores it.
pub open spec fn esc_spec(intermediates: Seq<u8>, byte: u8) -> Option<Command> {
    if intermediates.len() != 0 {
        None
    } else if byte == 0x37 {
        Some(Command::SaveCursorPosition)
    } else if byte == 0x38 {
        Some(Command::RestoreCursorPosition)
    } else {
        None
    }
}

/// The value of the parameter at `index`, or `default`.
pub fn extract_param(params: &Vec<Vec<u16>>, index: usize, default: u16) -> (value: usize)
    ensures
        value == param_or(params@, index as int, default),
{
    if index < params.len() && params[index].len() > 0 && params[index][0] != 0 {
        params[index][0] as usize
    } else {
        default as usize
    }
}

/// Reads the colour that the numbers `values` name.
pub fn parse_sgr_color(values: &Vec<u16>) -> (r: (Option<Color>, usize))
    ensures
        r.0 == color_spec(values@).0,
        r.1 == color_spec(values@).1,
        r.1 <= values@.len(),
{
    let len = values.len();
    if len == 0 {
        return (None, 0);
    }
    if values[0] == 2 {
        if len < 2 {
            return (None, 1);
        }
        if values[1] > 255 || len < 3 {
            return (None, 2);
        }
        if values[2] > 255 || len < 4 {
            return (None, 3);
        }
        if values[3] > 255 {
            return (None, 4);
        }
        (Some(Color::Rgb((values[1] as u8, values[2] as u8, values[3] as u8))), 4)
    } else if values[0] == 5 {
        if len < 2 {
            return (None, 1);
        }
        if values[1] > 255 {
            return (None, 2);
        }
        (Some(Color::Indexed(values[1] as u8)), 2)
    } else {
        (None, 1)
    }
}

/// The attribute that a parameter with the single number `value` stands for.
pub fn attr_of(value: u16) -> (r: Option<Attr>)
    ensures
        r == simple_attr(value),
{
    if value == 0 {
        Some(Attr::Reset)
    } else if value == 7 {
        Some(Attr::Reverse)
    } else if value == 8 {
        Some(Attr::Hidden)
    } else if value == 27 {
        Some(Attr::CancelReverse)
    } else if value == 28 {
        Some(Attr::CancelHidden)
    } else if 30 <= value && value <= 37 {
        Some(Attr::Foreground(Color::Indexed((value - 30) as u8)))
    } else if value == 39 {
        Some(Attr::Foreground(Color::Indexed(15)))
    } else if 40 <= value && value <= 47 {
        Some(Attr::Background(Color::Indexed((value - 40) as u8)))
    } else if value == 49 {
        Some(Attr::Background(Color::Indexed(0)))
    } else if 90 <= value && value <= 97 {
        Some(Attr::Foreground(Color::Indexed((value - 90 + 8) as u8)))
    } else if 100 <= value && value <= 107 {
        Some(Attr::Background(Color::Indexed((value - 100 + 8) as u8)))
    } else {
        None
    }
}

/// The attributes that the parameters of a graphic-rendition sequence stand
/// for, in their order.
pub fn attrs_from_sgr_parameters(params: &Vec<Vec<u16>>) -> (attrs: Vec<Attr>)
    ensures
        attrs@ == sgr_spec(params@, 0),
{
    let mut attrs: Vec<Attr> = Vec::new();
    let mut index: usize = 0;
    while index < params.len()
        invariant
            index <= params@.len(),
            attrs@ + sgr_spec(params@, index as int) == sgr_spec(params@, 0),
        decreases params@.len() - index,
    {
        let param = &params[index];
        let ghost before = attrs@;
        let ghost rest = sgr_spec(params@, index as int);
        if param.len() == 1 && (param[0] == 38 || param[0] == 48) {
            let values = values_from(params, index + 1);
            let (color, used) = parse_sgr_color(&values);
            match color {
                Some(color) => {
                    if param[0] == 38 {
                        attrs.push(Attr::Foreground(color));
                    } else {
                        attrs.push(Attr::Background(color));
                    }
                },
                None => {},
            }
            index = index + 1 + used;
        } else if param.len() == 1 {
            match attr_of(param[0]) {
                Some(attr) => {
                    attrs.push(attr);
                },
                None => {},
            }
            index = index + 1;
        } else if param.len() > 1 && (param[0] == 38 || param[0] == 48) {
            let values = sub_values_of(param);
            let (color, _) = parse_sgr_color(&values);
            match color {
                Some(color) => {
                    if param[0] == 38 {
                        attrs.push(Attr::Foreground(color));
                    } else {
                        attrs.push(Attr::Background(color));
                    }
                },
                None => {},
            }
            index = index + 1;
        } else {
            index = index + 1;
        }
        proof {
            let tail = sgr_spec(params@, index as int);
            assert(before + rest == sgr_spec(params@, 0));
            assert(attrs@ + tail =~= before + rest);
        }
    }
    proof {
        assert(attrs@ + Seq::<Attr>::empty() =~= attrs@);
    }
    attrs
}

/// The values of the parameters from `from` on.
pub fn values_from(params: &Vec<Vec<u16>>, from: usize) -> (values: Vec<u16>)
    requires
        from <= params@.len(),
    ensures
        values@ == firsts(params@, from as int),
{
    let mut values: Vec<u16> = Vec::new();
    let mut index = from;
    while index < params.len()
        invariant
            from <= index <= params@.len(),
            values@.len() == index - from,
            forall|i: int| 0 <= i < index - from ==> values@[i] == first_value(params@[from + i]@),
        decreases params@.len() - index,
    {
        let value = if params[index].len() > 0 {
            params[index][0]
        } else {
            0
        };
        values.push(value);
        index += 1;
    }
    proof {
        assert(values@ =~= firsts(params@, from as int));
    }
    values
}

/// The numbers that name the colour in a parameter that holds its colour
/// itself.
pub fn sub_values_of(param: &Vec<u16>) -> (values: Vec<u16>)
    requires
        param@.len() > 1,
    ensures
        values@ == sub_values(param@),
{
    let len = param.len();
    let start: usize = if len - 1 > 4 {
        3
    } else {
        2
    };
    let mut values: Vec<u16> = Vec::new();
    values.push(param[1]);
    let mut index = start;
    while index < len
        invariant
            start <= index <= len,
            len == param@.len(),
            2 <= start <= len,
            values@ == seq![param@[1]] + param@.subrange(start as int, index as int),
        decreases len - index,
    {
        values.push(param[index]);
        proof {
            assert(values@ =~= seq![param@[1]] + param@.subrange(start as int, index + 1));
        }
        index += 1;
    }
    proof {
        let rest = param@.subrange(1, len as int);
        assert(rest.subrange(start - 1, rest.len() as int) =~= param@.subrange(
            start as int,
            len as int,
        ));
    }
    values
}

/// The calls that a control sequence stands for.
pub fn csi_commands(params: &Vec<Vec<u16>>, intermediates: &[u8], ignore: bool, action: char) -> (commands:
    Vec<Command>)
    ensures
        commands@ == csi_spec(params@, intermediates@, ignore, action),
{
    let mut commands: Vec<Command> = Vec::new();
    if ignore || intermediates.len() > 1 {
        return commands;
    }
    if action == 'm' {
        if params.len() == 0 {
            commands.push(Command::TerminalAttribute(Attr::Reset));
            assert(commands@ =~= seq![Command::TerminalAttribute(Attr::Reset)]);
        } else {
            let attrs = attrs_from_sgr_parameters(params);
            let mut index: usize = 0;
            while index < attrs.len()
                invariant
                    index <= attrs@.len(),
                    commands@.len() == index,
                    forall|i: int|
                        0 <= i < index ==> commands@[i] == Command::TerminalAttribute(attrs@[i]),
                decreases attrs@.len() - index,
            {
                commands.push(Command::TerminalAttribute(attrs[index]));
                index += 1;
            }
            assert(commands@ =~= attribute_commands(attrs@));
        }
        return commands;
    }
    if intermediates.len() != 0 {
        return commands;
    }
    let one = extract_param(params, 0, 1);
    let mode = extract_param(params, 0, 0);
    let command = if action == 'A' {
        Some(Command::MoveUp(one))
    } else if action == 'B' || action == 'e' {
        Some(Command::MoveDown(one))
    } else if action == 'C' || action == 'a' {
        Some(Command::MoveForward(one))
    } else if action == 'D' {
        Some(Command::MoveBackward(one))
    } else if action == 'E' {
        Some(Command::MoveDownAndCr(one))
    } else if action == 'F' {
        Some(Command::MoveUpAndCr(one))
    } else if action == 'G' || action == '`' {
        Some(Command::GotoColumn(one - 1))
    } else if action == 'H' || action == 'f' {
        Some(Command::Goto(one - 1, extract_param(params, 1, 1) - 1))
    } else if action == 'J' {
        if mode == 0 {
            Some(Command::ClearScreen(ScreenClearMode::Below))
        } else if mode == 1 {
            Some(Command::ClearScreen(ScreenClearMode::Above))
        } else if mode == 2 {
            Some(Command::ClearScreen(ScreenClearMode::All))
        } else if mode == 3 {
            Some(Command::ClearScreen(ScreenClearMode::Saved))
        } else {
            None
        }
    } else if action == 'K' {
        if mode == 0 {
            Some(Command::ClearLine(LineClearMode::Right))
        } else if mode == 1 {
            Some(Command::ClearLine(LineClearMode::Left))
        } else if mode == 2 {
            Some(Command::ClearLine(LineClearMode::All))
        } else {
            None
        }
    } else if action == 'P' {
        Some(Command::DeleteChars(one))
    } else if action == 'X' {
        Some(Command::EraseChars(one))
    } else if action == 'd' {
        Some(Command::GotoRow(one - 1))
    } else {
        None
    };
    match command {
        Some(command) => {
            commands.push(command);
            assert(commands@ =~= seq![command]);
        },
        None => {},
    }
    commands
}

/// The call that a control byte stands for.
pub fn execute_command(byte: u8) -> (r: Option<Command>)
    ensures
        r == execute_spec(byte),
{
    if byte == 0x08 {
        Some(Command::Backspace)
    } else if byte == 0x09 {
        Some(Command::PutTab)
    } else if byte == 0x0A {
        Some(Command::Linefeed)
    } else if byte == 0x0D {
        Some(Command::CarriageReturn)
    } else {
        None
    }
}

/// The call that an escape sequence stands for.
pub fn esc_command(intermediates: &[u8], byte: u8) -> (r: Option<Command>)
    ensures
        r == esc_spec(intermediates@, byte),
{
    if intermediates.len() != 0 {
        None
    } else if byte == 0x37 {
        Some(Command::SaveCursorPosition)
    } else if byte == 0x38 {
        Some(Command::RestoreCursorPosition)
    } else {
        None
    }
}

/// Turns what the parser reports into calls on a terminal, which it holds
/// for as long as it lives.
pub struct Performer<'a, H: Handler> {
    pub handler: &'a mut H,
}

impl<'a, H: Handler> Performer<'a, H> {
    /// The record of the terminal: the calls made on it so far, first to
    /// last.
    pub open spec fn performed(&self) -> Seq<Command> {
        self.handler.record()
    }

    /// A performer for the terminal `handler`. What the performer leaves of
    /// the terminal is what the caller finds when the performer is gone.
    pub fn new(handler: &'a mut H) -> (performer: Self)
        ensures
            *performer.handler == *old(handler),
            *final(handler) == *final(performer.handler),
    {
        Self { handler }
    }

    /// Makes the call `command` on the terminal, by the method that stands
    /// for it.
    pub fn perform(&mut self, command: Command)
        ensures
            *final(final(self).handler) == *final(old(self).handler),
            final(self).performed() == old(self).performed().push(command),
    {
        match command {
            Command::Input(content) => self.handler.input(content),
            Command::Goto(row, col) => self.handler.goto(row, col),
            Command::GotoRow(row) => self.handler.goto_row(row),
            Command::GotoColumn(col) => self.handler.goto_column(col),
            Command::MoveUp(rows) => self.handler.move_up(rows),
            Command::MoveDown(rows) => self.handler.move_down(rows),
            Command::MoveForward(cols) => self.handler.move_forward(cols),
            Command::MoveBackward(cols) => self.handler.move_backward(cols),
            Command::MoveDownAndCr(rows) => self.handler.move_down_and_cr(rows),
            Command::MoveUpAndCr(rows) => self.handler.move_up_and_cr(rows),
            Command::PutTab => self.handler.put_tab(),
            Command::Backspace => self.handler.backspace(),
            Command::CarriageReturn => self.handler.carriage_return(),
            Command::Linefeed => self.handler.linefeed(),
            Command::EraseChars(count) => self.handler.erase_chars(count),
            Command::DeleteChars(count) => self.handler.delete_chars(count),
            Command::SaveCursorPosition => self.handler.save_cursor_position(),
            Command::RestoreCursorPosition => self.handler.restore_cursor_position(),
            Command::ClearLine(mode) => self.handler.clear_line(mode),
            Command::ClearScreen(mode) => self.handler.clear_screen(mode),
            Command::TerminalAttribute(attr) => self.handler.terminal_attribute(attr),
        }
    }

    /// A character to show: it is put at the cursor.
    pub fn print(&mut self, content: char)
        ensures
            *final(final(self).handler) == *final(old(self).handler),
            final(self).performed() == old(self).performed().push(Command::Input(content)),
    {
        self.perform(Command::Input(content));
    }

    /// A control byte: backspace, tab, line feed and carriage return are
    /// carried out, any other byte is passed over.
    pub fn execute(&mut self, byte: u8)
        ensures
            *final(final(self).handler) == *final(old(self).handler),
            final(self).performed() == match execute_spec(byte) {
                Some(command) => old(self).performed().push(command),
                None => old(self).performed(),
            },
    {
        match execute_command(byte) {
            Some(command) => self.perform(command),
            None => {},
        }
    }

    /// An operating-system command: passed over.
    pub fn osc_dispatch(&mut self, _params: &Vec<Vec<u8>>, _bell_terminated: bool)
        ensures
            *final(final(self).handler) == *final(old(self).handler),
            final(self).performed() == old(self).performed(),
    {
    }

    /// A control sequence: the calls that it stands for are made in their
    /// order.
    pub fn csi_dispatch(
        &mut self,
        params: &Vec<Vec<u16>>,
        intermediates: &[u8],
        ignore: bool,
        action: char,
    )
        ensures
            *final(final(self).handler) == *final(old(self).handler),
            final(self).performed() == old(self).performed() + csi_spec(
                params@,
                intermediates@,
                ignore,
                action,
            ),
    {
        let commands = csi_commands(params, intermediates, ignore, action);
        let mut index: usize = 0;
        while index < commands.len()
            invariant
                index <= commands@.len(),
                *final(self.handler) == *final(old(self).handler),
                self.performed() == old(self).performed() + commands@.subrange(0, index as int),
            decreases commands@.len() - index,
        {
            self.perform(commands[index]);
            proof {
                assert(commands@.subrange(0, index + 1) =~= commands@.subrange(0, index as int).push(
                    commands@[index as int],
                ));
                assert(self.performed() =~= old(self).performed() + commands@.subrange(
                    0,
                    index + 1,
                ));
            }
            index += 1;
        }
        proof {
            assert(commands@.subrange(0, index as int) =~= commands@);
        }
    }

    /// An escape sequence: `7` saves the cursor and `8` restores it, any
    /// other is passed over.
    pub fn esc_dispatch(&mut self, intermediates: &[u8], _ignore: bool, byte: u8)
        ensures
            *final(final(self).handler) == *final(old(self).handler),
            final(self).performed() == match esc_spec(intermediates@, byte) {
                Some(command) => old(self).performed().push(command),
                None => old(self).performed(),
            },
    {
        match esc_command(intermediates, byte) {
            Some(command) => self.perform(command),
            None => {},
        }
    }
}

} // verus!
