use breeze::ansi::CachingAnsciWriter;
use breeze::breeze::Breeze;
use breeze::mode::Key;
use ropey::Rope;

fn editor(text: &str, cols: u16, rows: u16) -> Breeze {
    let mut brz = Breeze::init(cols, rows);
    brz.open(Rope::from_str(text));
    brz
}

fn drawn(brz: &Breeze) -> String {
    assert!(brz.can_draw());
    String::from_utf8(brz.draw_to_buf()).unwrap()
}

#[test]
fn an_empty_screen() {
    assert_eq!(
        drawn(&Breeze::init(10, 5)),
        "\x1b[2J\x1b[1;1H\x1b[5;1Hnormal\x1b[6 q\x1b[1;1H\x1b[?25h"
    );
}

#[test]
fn plain_lines() {
    assert_eq!(
        drawn(&editor("ab\ncd", 10, 24)),
        "\x1b[2J\x1b[1;1Hab \x1b[2;1Hcd\x1b[24;1Hnormal\x1b[6 q\x1b[1;1H\x1b[?25h"
    );
}

#[test]
fn a_selected_line_is_colored() {
    let mut brz = editor("ab\ncd", 10, 5);
    brz.press(Key::Char('x'));
    assert_eq!(
        drawn(&brz),
        "\x1b[2J\x1b[1;1H\x1b[38;5;16m\x1b[48;5;4mab\u{b7}\x1b[2;1H\x1b[39m\x1b[49mcd\
         \x1b[5;1Hnormal\x1b[6 q\x1b[2;1H\x1b[?25h"
    );
}

#[test]
fn colors_are_reset_before_the_status() {
    let mut brz = editor("ab", 10, 5);
    brz.press(Key::Char('x'));
    assert_eq!(
        drawn(&brz),
        "\x1b[2J\x1b[1;1H\x1b[38;5;16m\x1b[48;5;4mab\x1b[39m\x1b[49m\
         \x1b[5;1Hnormal\x1b[6 q\x1b[1;3H\x1b[?25h"
    );
}

#[test]
fn lines_are_cut_off_at_the_size_of_the_screen() {
    assert_eq!(
        drawn(&editor("abcdef\nghi\njkl", 2, 2)),
        "\x1b[2J\x1b[1;1Hab\x1b[2;1Hgh\x1b[2;1Hnormal\x1b[6 q\x1b[1;1H\x1b[?25h"
    );
}

#[test]
fn a_cut_off_line_does_not_shift_the_selection() {
    let mut brz = editor("abcdef\nghi", 2, 5);
    brz.press(Key::Char('j'));
    brz.press(Key::Char('x'));
    assert_eq!(
        drawn(&brz),
        "\x1b[2J\x1b[1;1Hab\x1b[2;1H\x1b[38;5;16m\x1b[48;5;4mgh\x1b[39m\x1b[49m\
         \x1b[5;1Hnormal\x1b[6 q\x1b[2;4H\x1b[?25h"
    );
}

#[test]
fn the_mode_is_shown() {
    let mut brz = editor("", 10, 5);
    brz.press(Key::Char('i'));
    brz.press(Key::Char('\u{e9}'));
    assert_eq!(
        drawn(&brz),
        "\x1b[2J\x1b[1;1H\u{e9}\x1b[5;1Hinsert\x1b[6 q\x1b[1;2H\x1b[?25h"
    );
}

/// Presses keys until one quits, and returns the screens.
fn run_keys(brz: &mut Breeze, keys: &str) -> Vec<String> {
    let mut screens = vec![drawn(brz)];
    for ch in keys.chars() {
        let key = if ch == '\x1b' { Key::Esc } else { Key::Char(ch) };
        assert!(brz.accepts(key));
        if brz.press(key) {
            break;
        }
        screens.push(drawn(brz));
    }
    screens
}

#[test]
fn a_session_ends_at_the_first_key_that_quits() {
    let mut brz = editor("ab", 10, 5);
    let screens = run_keys(&mut brz, "iqx\x1bqxd");
    assert_eq!(brz.state.buffer.text.to_string(), "qxab");
    assert!(brz.state.quit);
    let mut same = editor("ab", 10, 5);
    assert_eq!(run_keys(&mut same, "iqx\x1bq"), screens);
    assert_eq!(same.state.buffer.text.to_string(), "qxab");
    assert_eq!(screens.len(), 5);
    let mut open = editor("ab", 10, 5);
    assert_eq!(run_keys(&mut open, "iqx\x1b"), screens);
    assert!(!open.state.quit);
    assert_eq!(run_keys(&mut editor("ab", 10, 5), "").len(), 1);
}

#[test]
fn a_terminal_of_no_height_shows_no_line() {
    assert_eq!(
        drawn(&editor("ab", 0, 0)),
        "\x1b[2J\x1b[0;1Hnormal\x1b[6 q\x1b[1;1H\x1b[?25h"
    );
}

#[test]
fn nothing_is_drawn_without_a_mode_or_a_cursor() {
    let mut brz = editor("ab", 10, 5);
    brz.state.modes.clear();
    assert!(!brz.can_draw());
    let mut brz = editor("ab", 10, 5);
    brz.state.buffer.selections.clear();
    assert!(!brz.can_draw());
}

#[test]
fn columns_are_counted_in_sixteen_bits() {
    let mut brz = editor(&"a".repeat(65540), 1, 1);
    brz.state.buffer.selections[0].cursor.column = 65534;
    assert!(drawn(&brz).ends_with("\x1b[1;65535H\x1b[?25h"));
    brz.state.buffer.selections[0].cursor.column = 65535;
    assert!(!brz.can_draw());
    brz.state.buffer.selections[0].cursor.column = 65537;
    assert!(drawn(&brz).ends_with("\x1b[1;2H\x1b[?25h"));
}

#[test]
fn rows_are_counted_in_sixteen_bits() {
    let mut brz = editor(&"\n".repeat(65536), 1, 1);
    assert!(brz.can_draw());
    brz.state.buffer.selections[0].cursor.line = 65535;
    assert!(!brz.can_draw());
    brz.state.buffer.selections[0].cursor.line = 0;
    brz.display_rows = 70000;
    assert!(!brz.can_draw());
    brz.display_rows = 65536;
    assert!(!brz.can_draw());
    brz.display_rows = 65535;
    assert!(brz.can_draw());
}

#[test]
fn colors_that_are_set_are_not_sent_again() {
    let mut w = CachingAnsciWriter::default();
    w.reset_color();
    w.change_color(255, 100);
    w.change_color(255, 100);
    w.change_color(255, 9);
    w.print_char('x');
    w.reset_color();
    w.reset_color();
    w.print("yz");
    assert_eq!(
        String::from_utf8(w.into_vec()).unwrap(),
        "\x1b[38;5;255m\x1b[48;5;100m\x1b[48;5;9mx\x1b[39m\x1b[49myz"
    );
}

#[test]
fn a_writer_takes_all_bytes() {
    let mut w = CachingAnsciWriter::default();
    assert_eq!(w.write(&[1, 2, 3]), 3);
    assert_eq!(w.write(&[]), 0);
    assert_eq!(w.write(&[255]), 1);
    assert_eq!((w.cur_fg, w.cur_bg), (None, None));
    assert_eq!(w.into_vec(), vec![1, 2, 3, 255]);
}
