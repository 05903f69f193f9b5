use raca_core::terminal::ansi::{
    attr_of, attrs_from_sgr_parameters, csi_commands, esc_command, execute_command, extract_param,
    parse_sgr_color, Attr, Command, Handler, LineClearMode, Performer, ScreenClearMode,
};
use raca_core::terminal::buffer::TerminalBuffer;
use raca_core::terminal::cell::{Cell, Flags, HIDDEN, INVERSE};
use raca_core::terminal::color::{Color, NamedColor};
use raca_core::terminal::console::{ConsoleInner, Cursor};

fn params(values: &[&[u16]]) -> Vec<Vec<u16>> {
    values.iter().map(|v| v.to_vec()).collect()
}

fn csi(values: &[&[u16]], action: char) -> Vec<Command> {
    csi_commands(&params(values), &[], false, action)
}

fn sgr(values: &[&[u16]]) -> Vec<Attr> {
    attrs_from_sgr_parameters(&params(values))
}

#[test]
fn named_colors_have_their_palette_numbers() {
    assert_eq!(NamedColor::Black.index(), 0);
    assert_eq!(NamedColor::White.index(), 7);
    assert_eq!(NamedColor::BrightBlack.index(), 8);
    assert_eq!(NamedColor::BrightWhite.index(), 15);
}

#[test]
fn default_cell_is_a_blank_in_bright_white_on_black() {
    let cell = Cell::default();
    assert_eq!(cell.content, ' ');
    assert_eq!(cell.flags, Flags { bits: 0 });
    assert_eq!(cell.foreground, Color::Indexed(15));
    assert_eq!(cell.background, Color::Indexed(0));
    let mut shown = cell.with_content('x');
    shown.flags.insert(INVERSE | HIDDEN);
    shown.foreground = Color::Rgb((1, 2, 3));
    assert!(shown.flags.contains(INVERSE));
    shown.flags.remove(INVERSE);
    assert_eq!(shown.flags.bits, HIDDEN);
    let blank = shown.reset();
    assert_eq!(blank.content, ' ');
    assert_eq!(blank.flags.bits, 0);
    assert_eq!(blank.foreground, Color::Rgb((1, 2, 3)));
}

#[test]
fn cursor_movements_take_one_parameter_with_default_one() {
    assert_eq!(csi(&[&[5]], 'A'), vec![Command::MoveUp(5)]);
    assert_eq!(csi(&[], 'A'), vec![Command::MoveUp(1)]);
    assert_eq!(csi(&[&[0]], 'A'), vec![Command::MoveUp(1)]);
    assert_eq!(csi(&[&[2]], 'B'), vec![Command::MoveDown(2)]);
    assert_eq!(csi(&[&[2]], 'e'), vec![Command::MoveDown(2)]);
    assert_eq!(csi(&[&[3]], 'C'), vec![Command::MoveForward(3)]);
    assert_eq!(csi(&[&[3]], 'a'), vec![Command::MoveForward(3)]);
    assert_eq!(csi(&[&[4]], 'D'), vec![Command::MoveBackward(4)]);
    assert_eq!(csi(&[&[6]], 'E'), vec![Command::MoveDownAndCr(6)]);
    assert_eq!(csi(&[&[7]], 'F'), vec![Command::MoveUpAndCr(7)]);
    assert_eq!(csi(&[&[9]], 'P'), vec![Command::DeleteChars(9)]);
    assert_eq!(csi(&[&[9]], 'X'), vec![Command::EraseChars(9)]);
    assert_eq!(csi(&[&[9, 4], &[3]], 'X'), vec![Command::EraseChars(9)]);
    assert_eq!(csi(&[&[]], 'X'), vec![Command::EraseChars(1)]);
}

#[test]
fn positions_are_counted_from_one() {
    assert_eq!(csi(&[&[8]], 'G'), vec![Command::GotoColumn(7)]);
    assert_eq!(csi(&[], '`'), vec![Command::GotoColumn(0)]);
    assert_eq!(csi(&[&[8]], 'd'), vec![Command::GotoRow(7)]);
    assert_eq!(csi(&[&[3], &[7]], 'H'), vec![Command::Goto(2, 6)]);
    assert_eq!(csi(&[&[3]], 'f'), vec![Command::Goto(2, 0)]);
    assert_eq!(csi(&[&[0], &[0]], 'H'), vec![Command::Goto(0, 0)]);
    assert_eq!(csi(&[], 'H'), vec![Command::Goto(0, 0)]);
}

#[test]
fn clear_modes_come_from_the_first_parameter() {
    assert_eq!(csi(&[], 'J'), vec![Command::ClearScreen(ScreenClearMode::Below)]);
    assert_eq!(csi(&[&[1]], 'J'), vec![Command::ClearScreen(ScreenClearMode::Above)]);
    assert_eq!(csi(&[&[2]], 'J'), vec![Command::ClearScreen(ScreenClearMode::All)]);
    assert_eq!(csi(&[&[3]], 'J'), vec![Command::ClearScreen(ScreenClearMode::Saved)]);
    assert_eq!(csi(&[&[4]], 'J'), vec![]);
    assert_eq!(csi(&[&[0]], 'K'), vec![Command::ClearLine(LineClearMode::Right)]);
    assert_eq!(csi(&[&[1]], 'K'), vec![Command::ClearLine(LineClearMode::Left)]);
    assert_eq!(csi(&[&[2]], 'K'), vec![Command::ClearLine(LineClearMode::All)]);
    assert_eq!(csi(&[&[3]], 'K'), vec![]);
}

#[test]
fn sequences_to_ignore_stand_for_nothing() {
    let one = params(&[&[5]]);
    assert_eq!(csi_commands(&one, &[], true, 'A'), vec![]);
    assert_eq!(csi_commands(&one, b"?!", false, 'A'), vec![]);
    assert_eq!(csi_commands(&one, b"?", false, 'A'), vec![]);
    assert_eq!(csi_commands(&one, &[], false, 'z'), vec![]);
    assert_eq!(
        csi_commands(&params(&[]), b"?", false, 'm'),
        vec![Command::TerminalAttribute(Attr::Reset)]
    );
    assert_eq!(
        csi_commands(&params(&[&[7]]), b"?", false, 'm'),
        vec![Command::TerminalAttribute(Attr::Reverse)]
    );
    assert_eq!(csi_commands(&params(&[&[7]]), b"?!", false, 'm'), vec![]);
    assert_eq!(csi_commands(&params(&[&[7]]), &[], true, 'm'), vec![]);
}

#[test]
fn graphic_rendition_of_single_numbers() {
    assert_eq!(
        sgr(&[&[0], &[7], &[8], &[27], &[28]]),
        vec![
            Attr::Reset,
            Attr::Reverse,
            Attr::Hidden,
            Attr::CancelReverse,
            Attr::CancelHidden
        ]
    );
    assert_eq!(
        sgr(&[&[30], &[37], &[40], &[47], &[90], &[97], &[100], &[107]]),
        vec![
            Attr::Foreground(Color::Indexed(0)),
            Attr::Foreground(Color::Indexed(7)),
            Attr::Background(Color::Indexed(0)),
            Attr::Background(Color::Indexed(7)),
            Attr::Foreground(Color::Indexed(8)),
            Attr::Foreground(Color::Indexed(15)),
            Attr::Background(Color::Indexed(8)),
            Attr::Background(Color::Indexed(15)),
        ]
    );
    assert_eq!(
        sgr(&[&[39], &[49]]),
        vec![
            Attr::Foreground(Color::Indexed(15)),
            Attr::Background(Color::Indexed(0))
        ]
    );
    assert_eq!(sgr(&[&[1], &[29], &[38, 5], &[98], &[108], &[0, 1], &[]]), vec![]);
    assert_eq!(sgr(&[]), vec![]);
    assert_eq!(attr_of(31), Some(Attr::Foreground(Color::Indexed(1))));
    assert_eq!(attr_of(38), None);
}

#[test]
fn graphic_rendition_of_colours_in_following_parameters() {
    assert_eq!(
        sgr(&[&[38], &[5], &[200], &[7]]),
        vec![Attr::Foreground(Color::Indexed(200)), Attr::Reverse]
    );
    assert_eq!(
        sgr(&[&[48], &[2], &[1], &[2], &[3], &[8]]),
        vec![Attr::Background(Color::Rgb((1, 2, 3))), Attr::Hidden]
    );
    assert_eq!(sgr(&[&[48], &[2], &[300], &[7]]), vec![Attr::Reverse]);
    assert_eq!(sgr(&[&[38], &[2], &[1], &[2], &[256], &[7]]), vec![Attr::Reverse]);
    assert_eq!(sgr(&[&[38], &[5], &[256], &[7]]), vec![Attr::Reverse]);
    assert_eq!(sgr(&[&[38], &[9], &[7]]), vec![Attr::Reverse]);
    assert_eq!(sgr(&[&[38], &[5]]), vec![]);
    assert_eq!(sgr(&[&[38], &[2], &[1], &[2]]), vec![]);
    assert_eq!(sgr(&[&[38]]), vec![]);
    assert_eq!(
        sgr(&[&[38], &[5, 9], &[12, 1]]),
        vec![Attr::Foreground(Color::Indexed(12))]
    );
}

#[test]
fn graphic_rendition_of_colours_in_one_parameter() {
    assert_eq!(sgr(&[&[38, 5, 100]]), vec![Attr::Foreground(Color::Indexed(100))]);
    assert_eq!(
        sgr(&[&[38, 2, 10, 20, 30], &[7]]),
        vec![Attr::Foreground(Color::Rgb((10, 20, 30))), Attr::Reverse]
    );
    assert_eq!(
        sgr(&[&[48, 2, 0, 10, 20, 30]]),
        vec![Attr::Background(Color::Rgb((10, 20, 30)))]
    );
    assert_eq!(sgr(&[&[48, 2, 10, 20]]), vec![]);
    assert_eq!(sgr(&[&[48, 5, 300], &[8]]), vec![Attr::Hidden]);
    assert_eq!(sgr(&[&[38, 7]]), vec![]);
}

#[test]
fn colour_runs_say_how_many_numbers_they_took() {
    assert_eq!(parse_sgr_color(&vec![]), (None, 0));
    assert_eq!(parse_sgr_color(&vec![9, 1]), (None, 1));
    assert_eq!(parse_sgr_color(&vec![5]), (None, 1));
    assert_eq!(parse_sgr_color(&vec![5, 17, 3]), (Some(Color::Indexed(17)), 2));
    assert_eq!(parse_sgr_color(&vec![5, 256]), (None, 2));
    assert_eq!(parse_sgr_color(&vec![2]), (None, 1));
    assert_eq!(parse_sgr_color(&vec![2, 1]), (None, 2));
    assert_eq!(parse_sgr_color(&vec![2, 1, 2]), (None, 3));
    assert_eq!(parse_sgr_color(&vec![2, 1, 2, 256]), (None, 4));
    assert_eq!(
        parse_sgr_color(&vec![2, 255, 0, 7, 9]),
        (Some(Color::Rgb((255, 0, 7))), 4)
    );
    assert_eq!(extract_param(&params(&[&[4], &[0]]), 0, 1), 4);
    assert_eq!(extract_param(&params(&[&[4], &[0]]), 1, 9), 9);
    assert_eq!(extract_param(&params(&[&[4], &[0]]), 2, 9), 9);
}

#[test]
fn control_bytes_and_escapes() {
    assert_eq!(execute_command(0x08), Some(Command::Backspace));
    assert_eq!(execute_command(0x09), Some(Command::PutTab));
    assert_eq!(execute_command(0x0a), Some(Command::Linefeed));
    assert_eq!(execute_command(0x0d), Some(Command::CarriageReturn));
    assert_eq!(execute_command(0x07), None);
    assert_eq!(esc_command(&[], b'7'), Some(Command::SaveCursorPosition));
    assert_eq!(esc_command(&[], b'8'), Some(Command::RestoreCursorPosition));
    assert_eq!(esc_command(&[], b'9'), None);
    assert_eq!(esc_command(b"#", b'8'), None);
}

struct Recorder {
    calls: Vec<String>,
}

impl Handler for Recorder {
    fn note(&mut self, _command: Command) {}

    fn input(&mut self, content: char) {
        self.calls.push(format!("input {}", content));
    }

    fn goto(&mut self, row: usize, col: usize) {
        self.calls.push(format!("goto {} {}", row, col));
    }

    fn linefeed(&mut self) {
        self.calls.push(format!("linefeed"));
    }

    fn save_cursor_position(&mut self) {
        self.calls.push(format!("save"));
    }

    fn terminal_attribute(&mut self, attr: Attr) {
        self.calls.push(format!("attr {:?}", attr));
    }
}

struct Silent;

impl Handler for Silent {
    fn note(&mut self, _command: Command) {}
}

#[test]
fn performer_makes_the_calls_on_its_handler() {
    let mut recorder = Recorder { calls: Vec::new() };
    {
        let mut performer = Performer::new(&mut recorder);
        performer.print('x');
        performer.execute(0x0a);
        performer.execute(0x08);
        performer.execute(0x00);
        performer.csi_dispatch(&params(&[&[2], &[3]]), &[], false, 'H');
        performer.csi_dispatch(&params(&[&[7], &[31]]), &[], false, 'm');
        performer.csi_dispatch(&params(&[&[2], &[3]]), &[], true, 'H');
        performer.esc_dispatch(&[], false, b'7');
        performer.esc_dispatch(&[], false, b'8');
        performer.osc_dispatch(&vec![vec![b'0']], true);
        performer.perform(Command::Goto(9, 9));
    }
    assert_eq!(
        recorder.calls,
        vec![
            "input x",
            "linefeed",
            "goto 1 2",
            "attr Reverse",
            "attr Foreground(Indexed(1))",
            "save",
            "goto 9 9",
        ]
    );
    let mut silent = Silent;
    let mut performer = Performer::new(&mut silent);
    performer.print('x');
    performer.csi_dispatch(&params(&[]), &[], false, 'J');
}

fn console(width: usize, height: usize) -> ConsoleInner {
    ConsoleInner::new(TerminalBuffer::new(width, height, Cell::default()).unwrap())
}

fn type_in(console: &mut ConsoleInner, text: &str) {
    for c in text.chars() {
        console.input(c);
    }
}

fn line(console: &ConsoleInner, row: usize) -> String {
    (0..console.columns())
        .map(|column| console.read(row, column).unwrap().content)
        .collect()
}

fn at(row: usize, column: usize) -> Cursor {
    Cursor { row, column }
}

#[test]
fn buffer_is_a_grid_of_cells() {
    assert!(TerminalBuffer::new(0, 3, Cell::default()).is_none());
    assert!(TerminalBuffer::new(3, 0, Cell::default()).is_none());
    assert!(TerminalBuffer::new(usize::MAX, 2, Cell::default()).is_none());
    let mut buffer = TerminalBuffer::new(3, 2, Cell::default()).unwrap();
    assert_eq!((buffer.width(), buffer.height()), (3, 2));
    let x = Cell::default().with_content('x');
    let y = Cell::default().with_content('y');
    buffer.write(1, 2, x);
    buffer.write(2, 0, y);
    buffer.write(0, 3, y);
    assert_eq!(buffer.read(1, 2), Some(x));
    assert_eq!(buffer.read(0, 0), Some(Cell::default()));
    assert_eq!(buffer.read(2, 0), None);
    assert_eq!(buffer.read(0, 3), None);
    buffer.new_line(y);
    assert_eq!(buffer.read(0, 2), Some(x));
    assert_eq!(buffer.read(0, 1), Some(Cell::default()));
    assert_eq!(buffer.read(1, 0), Some(y));
    assert_eq!(buffer.read(1, 2), Some(y));
    buffer.clear(x);
    assert_eq!(buffer.read(0, 0), Some(x));
    assert_eq!(buffer.read(1, 2), Some(x));
}

#[test]
fn input_writes_at_the_cursor_and_wraps() {
    let mut console = console(4, 3);
    assert_eq!(console.cursor_position(), at(0, 0));
    console.input('a');
    assert_eq!(console.read(0, 0), Some(Cell::default().with_content('a')));
    assert_eq!(console.cursor_position(), at(0, 1));
    type_in(&mut console, "bcd");
    assert_eq!(console.cursor_position(), at(0, 4));
    console.input('e');
    assert_eq!(console.cursor_position(), at(1, 1));
    assert_eq!(line(&console, 0), "abcd");
    assert_eq!(line(&console, 1), "e   ");
}

#[test]
fn linefeed_on_the_last_line_moves_the_screen_up() {
    let mut console = console(4, 3);
    type_in(&mut console, "abcdefghijkl");
    assert_eq!(console.cursor_position(), at(2, 4));
    console.input('m');
    assert_eq!(console.cursor_position(), at(2, 1));
    assert_eq!(line(&console, 0), "efgh");
    assert_eq!(line(&console, 1), "ijkl");
    assert_eq!(line(&console, 2), "m   ");
    console.linefeed();
    assert_eq!(console.cursor_position(), at(2, 0));
    assert_eq!(line(&console, 0), "ijkl");
    assert_eq!(line(&console, 1), "m   ");
    assert_eq!(line(&console, 2), "    ");
}

#[test]
fn cursor_stays_on_the_screen() {
    let mut console = console(4, 3);
    console.goto(10, 10);
    assert_eq!(console.cursor_position(), at(3, 4));
    console.goto(1, 2);
    assert_eq!(console.cursor_position(), at(1, 2));
    console.goto_row(2);
    assert_eq!(console.cursor_position(), at(2, 2));
    console.goto_column(9);
    assert_eq!(console.cursor_position(), at(2, 4));
    console.move_up(1);
    assert_eq!(console.cursor_position(), at(1, 4));
    console.move_up(5);
    assert_eq!(console.cursor_position(), at(0, 4));
    console.move_down(1);
    assert_eq!(console.cursor_position(), at(1, 4));
    console.move_down(usize::MAX);
    assert_eq!(console.cursor_position(), at(2, 4));
    console.move_backward(3);
    assert_eq!(console.cursor_position(), at(2, 1));
    console.move_backward(3);
    assert_eq!(console.cursor_position(), at(2, 0));
    console.move_forward(2);
    assert_eq!(console.cursor_position(), at(2, 2));
    console.move_forward(usize::MAX);
    assert_eq!(console.cursor_position(), at(2, 3));
    console.move_up_and_cr(1);
    assert_eq!(console.cursor_position(), at(1, 0));
    console.move_forward(2);
    console.move_down_and_cr(7);
    assert_eq!(console.cursor_position(), at(2, 0));
    console.move_forward(2);
    console.backspace();
    assert_eq!(console.cursor_position(), at(2, 1));
    console.backspace();
    console.backspace();
    assert_eq!(console.cursor_position(), at(2, 0));
    console.move_forward(3);
    console.carriage_return();
    assert_eq!(console.cursor_position(), at(2, 0));
    console.goto(1, 3);
    console.save_cursor_position();
    console.goto(0, 0);
    console.restore_cursor_position();
    assert_eq!(console.cursor_position(), at(1, 3));
}

#[test]
fn tab_blanks_up_to_the_next_stop() {
    let mut console = console(20, 2);
    type_in(&mut console, "abcdefghijkl");
    console.goto(0, 3);
    console.put_tab();
    assert_eq!(console.cursor_position(), at(0, 8));
    assert_eq!(line(&console, 0), "abc     ijkl        ");
    console.put_tab();
    assert_eq!(console.cursor_position(), at(0, 8));
    console.goto(0, 17);
    console.put_tab();
    assert_eq!(console.cursor_position(), at(0, 20));
}

#[test]
fn erase_and_delete_characters() {
    let mut console = console(6, 2);
    type_in(&mut console, "abcdef");
    console.goto(0, 1);
    console.erase_chars(2);
    assert_eq!(line(&console, 0), "a  def");
    assert_eq!(console.cursor_position(), at(0, 1));
    console.erase_chars(100);
    assert_eq!(line(&console, 0), "a     ");
    console.goto(1, 0);
    type_in(&mut console, "abcdef");
    console.goto(1, 1);
    console.delete_chars(1);
    assert_eq!(line(&console, 1), "acdef ");
    console.delete_chars(2);
    assert_eq!(line(&console, 1), "aef   ");
    console.goto(1, 0);
    type_in(&mut console, "abcdef");
    console.goto(1, 1);
    console.delete_chars(9);
    assert_eq!(line(&console, 1), "afcde ");
    console.goto(1, 5);
    console.input('z');
    assert_eq!(line(&console, 1), "afcdez");
    console.goto(1, 5);
    console.delete_chars(3);
    assert_eq!(line(&console, 1), "afcde ");
    console.goto(1, 6);
    console.delete_chars(1);
    assert_eq!(line(&console, 1), "afcde ");
}

#[test]
fn clear_line_and_screen() {
    let mut console = console(4, 3);
    type_in(&mut console, "abcdefghijkl");
    console.goto(1, 1);
    console.clear_line(LineClearMode::Right);
    assert_eq!(line(&console, 1), "e   ");
    console.goto(0, 1);
    console.clear_line(LineClearMode::Left);
    assert_eq!(line(&console, 0), "  cd");
    console.goto(2, 1);
    console.clear_line(LineClearMode::All);
    assert_eq!(line(&console, 2), "    ");
    assert_eq!(console.cursor_position(), at(2, 1));

    let mut console = self::console(4, 3);
    type_in(&mut console, "abcdefghijkl");
    console.goto(1, 2);
    console.clear_screen(ScreenClearMode::Above);
    assert_eq!(line(&console, 0), "    ");
    assert_eq!(line(&console, 1), "  gh");
    assert_eq!(line(&console, 2), "ijkl");
    console.clear_screen(ScreenClearMode::Saved);
    assert_eq!(line(&console, 2), "ijkl");

    let mut console = self::console(4, 3);
    type_in(&mut console, "abcdefghijkl");
    console.goto(1, 2);
    console.clear_screen(ScreenClearMode::Below);
    assert_eq!(line(&console, 0), "abcd");
    assert_eq!(line(&console, 1), "ef  ");
    assert_eq!(line(&console, 2), "    ");
    assert_eq!(console.cursor_position(), at(1, 2));
    console.clear_screen(ScreenClearMode::All);
    assert_eq!(line(&console, 0), "    ");
    assert_eq!(console.cursor_position(), at(0, 0));
}

#[test]
fn attributes_change_how_characters_are_shown() {
    let mut console = console(8, 1);
    console.terminal_attribute(Attr::Foreground(Color::Indexed(3)));
    console.terminal_attribute(Attr::Background(Color::Rgb((1, 2, 3))));
    console.terminal_attribute(Attr::Reverse);
    console.terminal_attribute(Attr::Hidden);
    console.input('a');
    let a = console.read(0, 0).unwrap();
    assert_eq!(a.content, 'a');
    assert_eq!(a.foreground, Color::Indexed(3));
    assert_eq!(a.background, Color::Rgb((1, 2, 3)));
    assert_eq!(a.flags.bits, INVERSE | HIDDEN);
    console.terminal_attribute(Attr::CancelReverse);
    console.input('b');
    assert_eq!(console.read(0, 1).unwrap().flags.bits, HIDDEN);
    console.terminal_attribute(Attr::CancelHidden);
    console.input('c');
    assert_eq!(console.read(0, 2).unwrap().flags.bits, 0);
    console.erase_chars(1);
    let blank = console.read(0, 3).unwrap();
    assert_eq!(blank.content, ' ');
    assert_eq!(blank.foreground, Color::Indexed(3));
    console.terminal_attribute(Attr::Reset);
    console.input('d');
    assert_eq!(console.read(0, 3), Some(Cell::default().with_content('d')));
}

#[test]
fn performer_drives_a_console() {
    let mut console = console(10, 3);
    {
        let mut performer = Performer::new(&mut console);
        performer.print('h');
        performer.print('i');
        performer.csi_dispatch(&params(&[&[2], &[5]]), &[], false, 'H');
        performer.csi_dispatch(&params(&[&[38], &[5], &[9]]), &[], false, 'm');
        performer.print('!');
        performer.execute(0x0d);
        performer.execute(0x0a);
    }
    assert_eq!(line(&console, 0), "hi        ");
    assert_eq!(line(&console, 1), "    !     ");
    assert_eq!(console.read(1, 4).unwrap().foreground, Color::Indexed(9));
    assert_eq!(console.cursor_position(), at(2, 0));
}
