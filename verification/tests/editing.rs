use breeze::buffer::{sub_rope, Buffer};
use breeze::coord::{Coord, CoordUnaligned};
use breeze::idx::Idx;
use breeze::order::edit_order;
use breeze::selection::SelectionUnaligned;
use ropey::Rope;

type Ends = ((usize, usize), (usize, usize));

fn selection(ends: Ends) -> SelectionUnaligned {
    SelectionUnaligned {
        anchor: CoordUnaligned { line: (ends.0).0, column: (ends.0).1 },
        cursor: CoordUnaligned { line: (ends.1).0, column: (ends.1).1 },
    }
}

fn buffer(text: &str, ends: &[Ends]) -> Buffer {
    let mut buffer = Buffer::from_text(Rope::from_str(text));
    buffer.selections = ends.iter().map(|&e| selection(e)).collect();
    buffer
}

fn spans(buffer: &Buffer) -> Vec<Ends> {
    buffer
        .selections
        .iter()
        .map(|s| ((s.anchor.line, s.anchor.column), (s.cursor.line, s.cursor.column)))
        .collect()
}

fn strings(ropes: &[Rope]) -> Vec<String> {
    ropes.iter().map(|r| r.to_string()).collect()
}

fn ropes(texts: &[&str]) -> Vec<Rope> {
    texts.iter().map(|t| Rope::from_str(t)).collect()
}

#[test]
fn a_new_buffer_has_one_selection() {
    let b = Buffer::default();
    assert_eq!(b.text.to_string(), "");
    assert_eq!(spans(&b), vec![((0, 0), (0, 0))]);
    assert_eq!(b.primary_sel_i, 0);
    let b = Buffer::from_text(Rope::from_str("ab"));
    assert_eq!(b.text.to_string(), "ab");
    assert_eq!(spans(&b), vec![((0, 0), (0, 0))]);
    assert_eq!(b.primary_sel_i, 0);
}

#[test]
fn a_cloned_buffer_is_independent() {
    let mut b = buffer("ab", &[((0, 0), (0, 1)), ((0, 2), (0, 2))]);
    b.primary_sel_i = 1;
    let saved = b.clone();
    b.insert('x');
    assert_eq!(b.text.to_string(), "axbx");
    assert_eq!(saved.text.to_string(), "ab");
    assert_eq!(spans(&saved), vec![((0, 0), (0, 1)), ((0, 2), (0, 2))]);
    assert_eq!(saved.primary_sel_i, 1);
}

#[test]
fn parts_of_a_rope() {
    let text = Rope::from_str("h\u{e9}llo");
    assert_eq!(sub_rope(&text, 1, 3).to_string(), "\u{e9}l");
    assert_eq!(sub_rope(&text, 1, 100).to_string(), "\u{e9}llo");
    assert_eq!(sub_rope(&text, 0, 5).to_string(), "h\u{e9}llo");
    assert_eq!(sub_rope(&text, 5, 5).to_string(), "");
}

#[test]
fn places_from_back_to_front() {
    assert_eq!(edit_order(&vec![3, 5, 3, 1]), vec![1, 2, 0, 3]);
    assert_eq!(edit_order(&vec![0, 0, 0]), vec![2, 1, 0]);
    assert_eq!(edit_order(&vec![]), Vec::<usize>::new());
}

#[test]
fn calls_for_each_selection() {
    let b = buffer("ab\ncd", &[((0, 0), (0, 9)), ((0, 0), (1, 1))]);
    let cursors = b.for_each_selection(|sel, text| sel.cursor.to_idx(text).0);
    assert_eq!(cursors, vec![2, 4]);
    let cursors = b.for_each_enumerated_selection(|i, sel, text| (i, sel.align(text).cursor.0));
    assert_eq!(cursors, vec![(0, 2), (1, 4)]);
}

#[test]
fn calls_that_change_each_selection() {
    let mut b = buffer("ab\ncd", &[((0, 0), (0, 9)), ((0, 0), (1, 1))]);
    let before = b.for_each_selection_mut(|sel, text| (sel.trim(text), sel.cursor.column));
    assert_eq!(before, vec![9, 1]);
    assert_eq!(spans(&b), vec![((0, 0), (0, 2)), ((0, 0), (1, 1))]);
    let order = b.for_each_enumerated_selection_mut(|i, sel, _| (sel.reversed(), i));
    assert_eq!(order, vec![0, 1]);
    assert_eq!(spans(&b), vec![((0, 2), (0, 0)), ((1, 1), (0, 0))]);
}

#[test]
fn which_chars_are_selected() {
    let b = buffer("abcdef", &[((0, 0), (0, 2)), ((0, 5), (0, 4))]);
    let selected: Vec<bool> = (0..7).map(|i| b.is_idx_selected(Idx(i))).collect();
    assert_eq!(selected, vec![true, true, false, false, true, false, false]);
}

#[test]
fn typing_at_one_cursor() {
    let mut b = buffer("ab", &[((0, 0), (0, 1))]);
    b.insert('x');
    assert_eq!(b.text.to_string(), "axb");
    assert_eq!(spans(&b), vec![((0, 2), (0, 2))]);
    b.insert('\n');
    assert_eq!(b.text.to_string(), "ax\nb");
    assert_eq!(spans(&b), vec![((1, 0), (1, 0))]);
}

#[test]
fn typing_at_two_cursors_on_a_line() {
    let mut b = buffer("abcd", &[((0, 1), (0, 1)), ((0, 0), (0, 3))]);
    b.insert('x');
    assert_eq!(b.text.to_string(), "axbcxd");
    assert_eq!(spans(&b), vec![((0, 2), (0, 2)), ((0, 5), (0, 5))]);
}

#[test]
fn typing_at_three_cursors_on_a_line() {
    let mut b = buffer("\nabc\n", &[((1, 1), (1, 1)), ((1, 3), (1, 3)), ((0, 0), (1, 1))]);
    b.insert('x');
    assert_eq!(b.text.to_string(), "\naxxbcx\n");
    assert_eq!(spans(&b), vec![((1, 2), (1, 2)), ((1, 6), (1, 6)), ((1, 3), (1, 3))]);
}

#[test]
fn typing_at_cursors_on_two_lines() {
    let mut b = buffer("a\nbcd", &[((0, 1), (0, 1)), ((1, 1), (1, 1))]);
    b.insert('x');
    assert_eq!(b.text.to_string(), "ax\nbxcd");
    assert_eq!(spans(&b), vec![((0, 2), (0, 2)), ((1, 3), (1, 3))]);
}

#[test]
fn typing_at_two_cursors_at_one_place() {
    let mut b = buffer("ab", &[((0, 1), (0, 1)), ((0, 1), (0, 1))]);
    b.insert('x');
    assert_eq!(b.text.to_string(), "axxb");
    assert_eq!(spans(&b), vec![((0, 2), (0, 2)), ((0, 3), (0, 3))]);
}

#[test]
fn typing_at_the_end() {
    let mut b = buffer("ab\r", &[((0, 0), (7, 7))]);
    b.insert('\n');
    assert_eq!(b.text.to_string(), "ab\r\n");
    assert_eq!(spans(&b), vec![((1, 0), (1, 0))]);
}

#[test]
fn backspace_at_one_cursor() {
    let mut b = buffer("abc", &[((0, 0), (0, 2))]);
    assert!(b.can_backspace());
    b.backspace();
    assert_eq!(b.text.to_string(), "ac");
    assert_eq!(spans(&b), vec![((0, 1), (0, 1))]);
}

#[test]
fn backspace_at_two_cursors() {
    let mut b = buffer("abcd", &[((0, 1), (0, 1)), ((0, 3), (0, 3))]);
    assert!(b.can_backspace());
    b.backspace();
    assert_eq!(b.text.to_string(), "bd");
    assert_eq!(spans(&b), vec![((0, 0), (0, 0)), ((0, 1), (0, 1))]);
}

#[test]
fn backspace_needs_a_char_before_every_cursor() {
    assert!(!buffer("abc", &[((0, 2), (0, 0))]).can_backspace());
    assert!(!buffer("abc", &[((0, 2), (0, 2)), ((0, 0), (0, 0))]).can_backspace());
    assert!(!buffer("", &[((0, 0), (0, 0))]).can_backspace());
    assert!(buffer("abc", &[]).can_backspace());
}

#[test]
fn deleting_a_selection() {
    let mut b = buffer("hello world", &[((0, 0), (0, 5))]);
    assert!(b.can_delete());
    assert_eq!(strings(&b.delete()), vec!["hello"]);
    assert_eq!(b.text.to_string(), " world");
    assert_eq!(spans(&b), vec![((0, 0), (0, 0))]);
}

#[test]
fn deleting_a_backward_selection() {
    let mut b = buffer("hello\nworld", &[((1, 2), (0, 4))]);
    assert_eq!(strings(&b.delete()), vec!["o\nwo"]);
    assert_eq!(b.text.to_string(), "hellrld");
    assert_eq!(spans(&b), vec![((0, 4), (0, 4))]);
}

#[test]
fn deleting_nothing() {
    let mut b = buffer("ab", &[((0, 1), (0, 1))]);
    assert_eq!(strings(&b.delete()), vec![""]);
    assert_eq!(b.text.to_string(), "ab");
    assert_eq!(spans(&b), vec![((0, 1), (0, 1))]);
}

#[test]
fn deleting_two_selections() {
    let mut b = buffer("abcdef", &[((0, 0), (0, 2)), ((0, 4), (0, 6))]);
    assert!(b.can_delete());
    assert_eq!(strings(&b.delete()), vec!["ab", "ef"]);
    assert_eq!(b.text.to_string(), "cd");
    assert_eq!(spans(&b), vec![((0, 0), (0, 0)), ((0, 2), (0, 2))]);
}

#[test]
fn overlapping_selections_may_not_be_deleted() {
    assert!(!buffer("abcde", &[((0, 0), (0, 5)), ((0, 1), (0, 3))]).can_delete());
    assert!(buffer("abcde", &[((0, 0), (0, 3)), ((0, 3), (0, 5))]).can_delete());
}

#[test]
fn removing_ranges() {
    let mut b = buffer("abcdefgh", &[((0, 3), (0, 8)), ((0, 0), (0, 1))]);
    let points = vec![(0, 1..3), (1, 5..6)];
    assert!(b.can_remove(&points));
    b.remove_ranges(points);
    assert_eq!(b.text.to_string(), "adegh");
    assert_eq!(spans(&b), vec![((0, 1), (0, 5)), ((0, 0), (0, 1))]);
}

#[test]
fn ranges_that_may_not_be_removed() {
    let b = buffer("abc", &[]);
    assert!(b.can_remove(&vec![]));
    assert!(b.can_remove(&vec![(0, 0..3)]));
    assert!(!b.can_remove(&vec![(0, 0..4)]));
    assert!(!b.can_remove(&vec![(0, std::ops::Range { start: 2, end: 1 })]));
}

#[test]
fn yanking_leaves_the_buffer_alone() {
    let b = buffer("ab\ncd", &[((0, 1), (1, 1)), ((1, 9), (1, 0))]);
    assert_eq!(strings(&b.yank()), vec!["b\nc", "cd"]);
    assert_eq!(b.text.to_string(), "ab\ncd");
}

#[test]
fn pasting_selects() {
    let mut b = buffer("ab", &[((0, 1), (0, 1))]);
    b.paste(&ropes(&["X\nY"]));
    assert_eq!(b.text.to_string(), "aX\nYb");
    assert_eq!(spans(&b), vec![((0, 1), (1, 1))]);
    assert_eq!(strings(&b.yank()), vec!["X\nY"]);
}

#[test]
fn pasting_keeps_the_direction() {
    let mut b = buffer("abc", &[((0, 2), (0, 1))]);
    b.paste(&ropes(&["X"]));
    assert_eq!(b.text.to_string(), "aXbc");
    assert_eq!(spans(&b), vec![((0, 2), (0, 1))]);
}

#[test]
fn pasting_over_a_forward_selection() {
    let mut b = buffer("abc", &[((0, 0), (0, 2))]);
    b.paste(&ropes(&["XY"]));
    assert_eq!(b.text.to_string(), "abXYc");
    assert_eq!(spans(&b), vec![((0, 2), (0, 4))]);
}

#[test]
fn pasting_a_line_break_turns_a_backward_selection_on_the_line() {
    let mut b = buffer("abc", &[((0, 3), (0, 1))]);
    b.paste(&ropes(&["\nX"]));
    assert_eq!(b.text.to_string(), "a\nXbc");
    assert_eq!(spans(&b), vec![((0, 1), (1, 1))]);
    let mut b = buffer("ab\ncd", &[((1, 1), (0, 1))]);
    b.paste(&ropes(&["\nX"]));
    assert_eq!(b.text.to_string(), "a\nXb\ncd");
    assert_eq!(spans(&b), vec![((1, 1), (0, 1))]);
    assert_eq!(strings(&b.yank()), vec!["\nX"]);
}

#[test]
fn pasting_what_was_deleted_selects_it_where_it_was() {
    for ends in [((0, 2), (0, 4)), ((0, 4), (0, 2))] {
        let mut b = buffer("abab", &[ends]);
        let yanked = b.delete();
        b.paste(&yanked);
        assert_eq!(b.text.to_string(), "abab");
        assert_eq!(spans(&b), vec![((0, 2), (0, 4))]);
    }
}

#[test]
fn extending_adds_what_was_pasted_to_the_selection() {
    let mut b = buffer("a\nbcd", &[((0, 1), (1, 1))]);
    b.paste_extend(&ropes(&["X\nY"]));
    assert_eq!(strings(&b.yank()), vec!["\nbX\nY"]);
    let mut b = buffer("a\nbcd", &[((1, 2), (1, 1))]);
    b.paste_extend(&ropes(&["XY"]));
    assert_eq!(strings(&b.yank()), vec!["XYc"]);
}

#[test]
fn pasting_and_extending() {
    let mut b = buffer("abc", &[((0, 0), (0, 1))]);
    b.paste_extend(&ropes(&["X"]));
    assert_eq!(b.text.to_string(), "aXbc");
    assert_eq!(spans(&b), vec![((0, 0), (0, 2))]);
    let mut b = buffer("abc", &[((0, 2), (0, 1))]);
    b.paste_extend(&ropes(&["X"]));
    assert_eq!(b.text.to_string(), "aXbc");
    assert_eq!(spans(&b), vec![((0, 3), (0, 1))]);
}

#[test]
fn the_first_text_goes_to_the_last_cursor() {
    let mut b = buffer("ab", &[((0, 0), (0, 0)), ((0, 2), (0, 2))]);
    b.paste(&ropes(&["1", "2"]));
    assert_eq!(b.text.to_string(), "2ab1");
    assert_eq!(spans(&b), vec![((0, 0), (0, 1)), ((0, 3), (0, 4))]);
}

#[test]
fn pasting_fewer_texts_than_there_are_cursors() {
    let mut b = buffer("ab", &[((0, 0), (0, 0)), ((0, 2), (0, 2))]);
    b.paste(&ropes(&["1"]));
    assert_eq!(b.text.to_string(), "ab1");
    assert_eq!(spans(&b), vec![((0, 0), (0, 0)), ((0, 2), (0, 3))]);
    let mut b = buffer("ab", &[((0, 1), (0, 1))]);
    b.paste(&ropes(&["1", "2", "3"]));
    assert_eq!(b.text.to_string(), "a1b");
}

#[test]
fn the_pieces_of_a_long_text_are_pasted_last_first() {
    let long: String = (0..2000).map(|i| char::from(b'a' + (i % 26) as u8)).collect();
    let yanked = Rope::from_str(&long);
    let mut pieces: Vec<String> = yanked.chunks().map(String::from).collect();
    assert!(pieces.len() > 1);
    pieces.reverse();
    let mut b = buffer("<>", &[((0, 1), (0, 1))]);
    b.paste(&[yanked]);
    assert_eq!(b.text.to_string(), format!("<{}>", pieces.concat()));
    assert_eq!(spans(&b), vec![((0, 1), (0, 2001))]);
}

#[test]
fn a_long_text_is_edited_in_the_middle() {
    let long: String = (0..2000).map(|i| char::from(b'a' + (i % 26) as u8)).collect();
    let mut b = buffer(&long, &[((0, 990), (0, 1010))]);
    assert_eq!(strings(&b.delete()), vec![long[990..1010].to_string()]);
    assert_eq!(b.text.to_string(), format!("{}{}", &long[..990], &long[1010..]));
    b.insert('!');
    assert_eq!(b.text.to_string(), format!("{}!{}", &long[..990], &long[1010..]));
    assert_eq!(b.cursor_pos(), Coord { line: 0, column: 991 });
}

#[test]
fn moving_cursors() {
    let mut b = buffer("ab\ncd", &[((0, 0), (0, 1)), ((0, 0), (1, 1))]);
    b.move_cursor_forward();
    assert_eq!(spans(&b), vec![((0, 1), (0, 2)), ((1, 1), (1, 2))]);
    b.move_cursor_backward();
    assert_eq!(spans(&b), vec![((0, 2), (0, 1)), ((1, 2), (1, 1))]);
    b.move_cursor_down();
    assert_eq!(spans(&b), vec![((0, 1), (1, 1)), ((1, 1), (1, 1))]);
    b.move_cursor_up();
    assert_eq!(spans(&b), vec![((1, 1), (0, 1)), ((1, 1), (0, 1))]);
}

#[test]
fn moving_cursors_by_words() {
    let mut b = buffer("one two", &[((0, 5), (0, 1))]);
    b.move_cursor_forward_word();
    assert_eq!(spans(&b), vec![((0, 1), (0, 4))]);
    b.move_cursor_backward_word();
    assert_eq!(spans(&b), vec![((0, 4), (0, 0))]);
}

#[test]
fn moving_cursors_by_functions() {
    let mut b = buffer("abcdef", &[((0, 0), (0, 1))]);
    b.move_cursor(|c, text| c.forward_n(2, text));
    assert_eq!(spans(&b), vec![((0, 1), (0, 3))]);
    b.extend_cursor(CoordUnaligned::forward);
    assert_eq!(spans(&b), vec![((0, 1), (0, 4))]);
    b.move_cursor_2(|c, text| (c.backward(text), c.forward(text)));
    assert_eq!(spans(&b), vec![((0, 3), (0, 5))]);
    b.extend_cursor_2(|c, text| (c, c.backward(text)));
    assert_eq!(spans(&b), vec![((0, 3), (0, 4))]);
    b.change_selection(|cursor, anchor, text| (anchor, cursor.forward(text)));
    assert_eq!(spans(&b), vec![((0, 5), (0, 3))]);
}

#[test]
fn the_first_cursor() {
    let b = buffer("ab\ncd", &[((0, 0), (0, 9)), ((0, 0), (1, 1))]);
    assert_eq!(b.cursor_pos(), Coord { line: 0, column: 2 });
}

#[test]
fn selecting_lines() {
    let mut b = buffer("ab\r\ncd", &[((0, 0), (0, 1)), ((0, 0), (1, 1))]);
    b.move_line();
    assert_eq!(spans(&b), vec![((0, 0), (1, 0)), ((1, 0), (1, 2))]);
    assert_eq!(strings(&b.yank()), vec!["ab\r\n", "cd"]);
}

#[test]
fn extending_by_lines() {
    let mut b = buffer("ab\ncd\nef", &[((0, 1), (0, 1)), ((1, 1), (0, 1)), ((0, 1), (1, 0))]);
    b.extend_line();
    assert_eq!(spans(&b), vec![((0, 0), (1, 0)), ((0, 0), (1, 0)), ((0, 0), (2, 0))]);
}

#[test]
fn reversing_selections() {
    let mut b = buffer("ab\ncd", &[((0, 0), (0, 9)), ((1, 0), (0, 1))]);
    b.reverse_selections();
    assert_eq!(spans(&b), vec![((0, 9), (0, 0)), ((0, 1), (1, 0))]);
    b.reverse_selections();
    assert_eq!(spans(&b), vec![((0, 0), (0, 9)), ((1, 0), (0, 1))]);
}

#[test]
fn pulling_selections_back() {
    let mut b = buffer("abcdef", &[((0, 1), (0, 4))]);
    b.sub_to_every_selection_after(Idx(1), 2);
    assert_eq!(spans(&b), vec![((0, 1), (0, 2))]);
    b.sub_to_every_selection_after(Idx(0), 100);
    assert_eq!(spans(&b), vec![((0, 0), (0, 0))]);
}

#[test]
fn pushing_selections_forward() {
    let mut b = buffer("abcdef", &[((0, 0), (0, 3))]);
    b.add_to_every_selection_after(Idx(4), 2);
    assert_eq!(spans(&b), vec![((0, 0), (0, 3))]);
    b.add_to_every_selection_after(Idx(3), 2);
    assert_eq!(spans(&b), vec![((0, 5), (0, 5))]);
    b.add_to_every_selection_after(Idx(0), usize::MAX);
    assert_eq!(spans(&b), vec![((0, 6), (0, 6))]);
}
