use breeze::breeze::Breeze;
use breeze::mode::{InsertMode, Key, Mode, NormalMode, State};
use ropey::Rope;

fn opened(text: &str) -> Breeze {
    let mut brz = Breeze::init(80, 24);
    brz.open(Rope::from_str(text));
    brz
}

fn press_all(brz: &mut Breeze, keys: &str) {
    for ch in keys.chars() {
        let key = if ch == '\u{1b}' { Key::Esc } else { Key::Char(ch) };
        assert!(brz.accepts(key));
        assert!(!brz.press(key));
    }
}

fn text_of(brz: &Breeze) -> String {
    brz.state.buffer.text.to_string()
}

fn first_span(brz: &Breeze) -> ((usize, usize), (usize, usize)) {
    let sel = brz.state.buffer.selections[0];
    ((sel.anchor.line, sel.anchor.column), (sel.cursor.line, sel.cursor.column))
}

fn yanked_texts(state: &State) -> Vec<String> {
    state.yanked.iter().map(|r| r.to_string()).collect()
}

#[test]
fn an_editor_starts_in_normal_mode() {
    let brz = Breeze::init(80, 24);
    assert_eq!(brz.state.modes, vec![Mode::Normal]);
    assert_eq!((brz.display_cols, brz.display_rows), (80, 24));
    assert_eq!(text_of(&brz), "");
    assert_eq!(first_span(&brz), ((0, 0), (0, 0)));
    assert_eq!(brz.state.buffer.selections.len(), 1);
    assert!(brz.state.yanked.is_empty());
    assert!(!brz.state.quit);
}

#[test]
fn a_state_starts_without_modes() {
    let state = State::default();
    assert!(state.modes.is_empty());
    assert!(!state.quit);
    let mut brz = opened("a");
    brz.state = state;
    assert!(!brz.accepts(Key::Char('q')));
}

#[test]
fn opening_keeps_what_was_yanked() {
    let mut brz = opened("ab");
    press_all(&mut brz, "xy");
    brz.open(Rope::from_str("cd"));
    assert_eq!(text_of(&brz), "cd");
    assert_eq!(first_span(&brz), ((0, 0), (0, 0)));
    assert_eq!(yanked_texts(&brz.state), vec!["ab"]);
}

#[test]
fn modes_have_names() {
    assert_eq!(Mode::Insert.name(), "insert");
    assert_eq!(Mode::Normal.name(), "normal");
    assert_eq!(InsertMode.name(), "insert");
    assert_eq!(NormalMode.name(), "normal");
}

#[test]
fn typing_a_text() {
    let mut brz = opened("");
    press_all(&mut brz, "ihello\nworld\u{1b}");
    assert_eq!(text_of(&brz), "hello\nworld");
    assert_eq!(first_span(&brz), ((1, 5), (1, 5)));
    assert_eq!(brz.state.modes, vec![Mode::Normal]);
}

#[test]
fn control_codes_are_not_typed() {
    let mut brz = opened("ab");
    press_all(&mut brz, "i\t\r\u{7f}\u{9f}\u{a0}");
    assert_eq!(text_of(&brz), "\u{a0}ab");
}

#[test]
fn backspace_undoes_typing() {
    let mut brz = opened("ab\ncd");
    press_all(&mut brz, "jli");
    press_all(&mut brz, "x");
    assert_eq!(text_of(&brz), "ab\ncxd");
    assert!(brz.accepts(Key::Backspace));
    brz.press(Key::Backspace);
    assert_eq!(text_of(&brz), "ab\ncd");
    assert_eq!(first_span(&brz), ((1, 1), (1, 1)));
}

#[test]
fn backspace_joins_lines() {
    let mut brz = opened("ab\ncd");
    press_all(&mut brz, "ji");
    brz.press(Key::Backspace);
    assert_eq!(text_of(&brz), "abcd");
    assert_eq!(first_span(&brz), ((0, 2), (0, 2)));
}

#[test]
fn no_backspace_at_the_start() {
    let mut brz = opened("ab");
    press_all(&mut brz, "i");
    assert!(!brz.accepts(Key::Backspace));
    press_all(&mut brz, "x");
    assert!(brz.accepts(Key::Backspace));
}

#[test]
fn arrows_move_in_both_modes() {
    for keys in ["", "i"] {
        let mut brz = opened("abc\nde");
        press_all(&mut brz, keys);
        brz.press(Key::Right);
        assert_eq!(first_span(&brz), ((0, 0), (0, 1)));
        brz.press(Key::Down);
        assert_eq!(first_span(&brz), ((0, 1), (1, 1)));
        brz.press(Key::Left);
        assert_eq!(first_span(&brz), ((1, 1), (1, 0)));
        brz.press(Key::Up);
        assert_eq!(first_span(&brz), ((1, 0), (0, 0)));
    }
}

#[test]
fn letters_move_like_arrows() {
    let mut brz = opened("abc\nde");
    press_all(&mut brz, "l");
    assert_eq!(first_span(&brz), ((0, 0), (0, 1)));
    press_all(&mut brz, "j");
    assert_eq!(first_span(&brz), ((0, 1), (1, 1)));
    press_all(&mut brz, "h");
    assert_eq!(first_span(&brz), ((1, 1), (1, 0)));
    press_all(&mut brz, "k");
    assert_eq!(first_span(&brz), ((1, 0), (0, 0)));
}

#[test]
fn capital_letters_extend() {
    let mut brz = opened("abc\nde");
    press_all(&mut brz, "lL");
    assert_eq!(first_span(&brz), ((0, 0), (0, 2)));
    press_all(&mut brz, "J");
    assert_eq!(first_span(&brz), ((0, 0), (1, 2)));
    press_all(&mut brz, "H");
    assert_eq!(first_span(&brz), ((0, 0), (1, 1)));
    press_all(&mut brz, "K");
    assert_eq!(first_span(&brz), ((0, 0), (0, 1)));
}

#[test]
fn extending_leads_to_where_moving_does() {
    for (small, capital) in [("h", "H"), ("j", "J"), ("k", "K"), ("l", "L"), ("w", "W"), ("b", "B")]
    {
        let mut moved = opened("ab cd\nef gh\nij");
        press_all(&mut moved, "jll");
        let mut extended = opened("ab cd\nef gh\nij");
        press_all(&mut extended, "jll");
        press_all(&mut moved, small);
        press_all(&mut extended, capital);
        assert_eq!(first_span(&moved).1, first_span(&extended).1);
        assert_eq!(first_span(&extended).0, (1, 1));
    }
}

#[test]
fn words() {
    let mut brz = opened("one two three");
    press_all(&mut brz, "w");
    assert_eq!(first_span(&brz), ((0, 0), (0, 4)));
    press_all(&mut brz, "W");
    assert_eq!(first_span(&brz), ((0, 0), (0, 8)));
    press_all(&mut brz, "b");
    assert_eq!(first_span(&brz), ((0, 8), (0, 4)));
    press_all(&mut brz, "B");
    assert_eq!(first_span(&brz), ((0, 8), (0, 0)));
}

#[test]
fn lines() {
    let mut brz = opened("ab\ncd\nef");
    press_all(&mut brz, "lx");
    assert_eq!(first_span(&brz), ((0, 0), (1, 0)));
    press_all(&mut brz, "X");
    assert_eq!(first_span(&brz), ((0, 0), (2, 0)));
    press_all(&mut brz, "X");
    assert_eq!(first_span(&brz), ((0, 0), (2, 2)));
}

#[test]
fn reversing() {
    let mut brz = opened("abc");
    press_all(&mut brz, "lL'");
    assert_eq!(first_span(&brz), ((0, 2), (0, 0)));
    assert!(brz.accepts(Key::Alt(';')));
    brz.press(Key::Alt(';'));
    assert_eq!(first_span(&brz), ((0, 0), (0, 2)));
}

#[test]
fn deleting_yanks() {
    let mut brz = opened("hello world");
    press_all(&mut brz, "wd");
    assert_eq!(text_of(&brz), "world");
    assert_eq!(yanked_texts(&brz.state), vec!["hello "]);
    assert_eq!(first_span(&brz), ((0, 0), (0, 0)));
    assert_eq!(brz.state.modes, vec![Mode::Normal]);
}

#[test]
fn pasting_undoes_deleting() {
    for paste in ["p", "P"] {
        let mut brz = opened("hello\nworld");
        press_all(&mut brz, "llLL");
        assert_eq!(brz.state.buffer.yank()[0].to_string(), "ell");
        press_all(&mut brz, "d");
        assert_eq!(text_of(&brz), "ho\nworld");
        press_all(&mut brz, paste);
        assert_eq!(text_of(&brz), "hello\nworld");
        assert_eq!(brz.state.buffer.yank()[0].to_string(), "ell");
    }
}

#[test]
fn changing_is_deleting_and_inserting() {
    let mut changed = opened("hello world");
    press_all(&mut changed, "wc");
    let mut deleted = opened("hello world");
    press_all(&mut deleted, "wdi");
    assert_eq!(text_of(&changed), "world");
    assert_eq!(text_of(&changed), text_of(&deleted));
    assert_eq!(first_span(&changed), first_span(&deleted));
    assert_eq!(changed.state.modes, vec![Mode::Normal, Mode::Insert]);
    assert_eq!(changed.state.modes, deleted.state.modes);
    assert_eq!(yanked_texts(&changed.state), yanked_texts(&deleted.state));
}

#[test]
fn yanking_changes_nothing_else() {
    let mut brz = opened("hello world");
    press_all(&mut brz, "wy");
    assert_eq!(text_of(&brz), "hello world");
    assert_eq!(first_span(&brz), ((0, 0), (0, 6)));
    assert_eq!(yanked_texts(&brz.state), vec!["hello "]);
}

#[test]
fn pasting_twice() {
    let mut brz = opened("ab");
    press_all(&mut brz, "xyp");
    assert_eq!(text_of(&brz), "abab");
    assert_eq!(first_span(&brz), ((0, 2), (0, 4)));
    press_all(&mut brz, "P");
    assert_eq!(text_of(&brz), "ababab");
    assert_eq!(first_span(&brz), ((0, 2), (0, 6)));
}

#[test]
fn pasting_with_nothing_yanked() {
    let mut brz = opened("ab");
    press_all(&mut brz, "lp");
    assert_eq!(text_of(&brz), "ab");
    assert_eq!(first_span(&brz), ((0, 0), (0, 1)));
}

#[test]
fn entering_and_leaving_insert_mode() {
    let mut brz = opened("ab");
    press_all(&mut brz, "li\u{1b}");
    assert_eq!(text_of(&brz), "ab");
    assert_eq!(first_span(&brz), ((0, 0), (0, 1)));
    assert_eq!(brz.state.modes, vec![Mode::Normal]);
}

#[test]
fn only_q_in_normal_mode_quits() {
    let mut brz = opened("ab");
    press_all(&mut brz, "iq\u{1b}");
    assert_eq!(text_of(&brz), "qab");
    assert!(brz.accepts(Key::Char('q')));
    assert!(brz.press(Key::Char('q')));
    assert!(brz.state.quit);
    assert!(brz.press(Key::Left));
}

#[test]
fn other_keys_do_nothing() {
    let others = [
        Key::Home,
        Key::End,
        Key::PageUp,
        Key::PageDown,
        Key::BackTab,
        Key::Delete,
        Key::Insert,
        Key::F(1),
        Key::Alt('x'),
        Key::Ctrl('d'),
        Key::Null,
    ];
    for keys in ["l", "li"] {
        let mut brz = opened("abc");
        press_all(&mut brz, keys);
        for key in others {
            assert!(brz.accepts(key));
            assert!(!brz.press(key));
        }
        assert_eq!(text_of(&brz), "abc");
        assert_eq!(first_span(&brz), ((0, 0), (0, 1)));
        assert_eq!(brz.state.modes.len(), keys.len());
    }
    let mut brz = opened("abc");
    press_all(&mut brz, "lzQ0 ");
    brz.press(Key::Backspace);
    brz.press(Key::Esc);
    assert_eq!(text_of(&brz), "abc");
    assert_eq!(first_span(&brz), ((0, 0), (0, 1)));
    assert_eq!(brz.state.modes, vec![Mode::Normal]);
}

#[test]
fn typing_past_the_end_of_the_last_line() {
    let mut brz = opened("abc\nd");
    press_all(&mut brz, "lllj");
    assert_eq!(first_span(&brz).1, (1, 3));
    press_all(&mut brz, "ix");
    assert_eq!(text_of(&brz), "abc\ndx");
    assert_eq!(first_span(&brz), ((1, 2), (1, 2)));
}

#[test]
fn every_key_keeps_the_one_selection() {
    let mut brz = opened("one two\nthree\r\nfour");
    let keys = "lwxyjpPdLLc".chars().map(Key::Char).chain([
        Key::Char('z'),
        Key::Backspace,
        Key::Esc,
        Key::Char('X'),
        Key::Char('\''),
        Key::Char('d'),
        Key::Up,
    ]);
    for key in keys {
        assert!(brz.accepts(key));
        brz.press(key);
        assert_eq!(brz.state.buffer.selections.len(), 1);
        assert_eq!(brz.state.buffer.primary_sel_i, 0);
        assert_eq!(brz.state.modes[0], Mode::Normal);
        assert!(brz.state.modes.len() <= 2);
    }
}

#[test]
fn a_cloned_state_is_independent() {
    let mut brz = opened("ab");
    press_all(&mut brz, "xyi");
    let saved = brz.state.clone();
    press_all(&mut brz, "z");
    assert_eq!(saved.buffer.text.to_string(), "ab");
    assert_eq!(text_of(&brz), "abz");
    assert_eq!(yanked_texts(&saved), vec!["ab"]);
    assert_eq!(saved.modes, vec![Mode::Normal, Mode::Insert]);
}
