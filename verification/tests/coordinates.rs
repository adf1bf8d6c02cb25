use breeze::coord::{earlier, is_whitespace, Coord, CoordUnaligned};
use breeze::idx::Idx;
use breeze::mode::is_control;
use ropey::Rope;

fn at(line: usize, column: usize) -> CoordUnaligned {
    CoordUnaligned { line, column }
}

#[test]
fn alignment_stays_on_the_line() {
    let text = Rope::from_str("ab\ncd");
    assert_eq!(at(0, 1).align(&text), Coord { line: 0, column: 1 });
    assert_eq!(at(0, 100).align(&text), Coord { line: 0, column: 2 });
    assert_eq!(at(1, 100).align(&text), Coord { line: 1, column: 2 });
}

#[test]
fn alignment_falls_on_the_last_line() {
    let text = Rope::from_str("ab\ncd");
    assert_eq!(at(7, 1).align(&text), Coord { line: 1, column: 1 });
    assert_eq!(at(7, 9).align(&text), Coord { line: 1, column: 2 });
    let text = Rope::from_str("ab\n");
    assert_eq!(at(7, 9).align(&text), Coord { line: 1, column: 0 });
}

#[test]
fn trimming_is_aligning() {
    let text = Rope::from_str("ab\ncd");
    assert_eq!(at(0, 100).trim(&text), at(0, 2));
    assert_eq!(at(0, 100).trim(&text).trim(&text), at(0, 2));
    assert_eq!(CoordUnaligned::from(Coord { line: 3, column: 4 }), at(3, 4));
}

#[test]
fn positions_and_coordinates_correspond() {
    let text = Rope::from_str("ab\n\nc\r\nd");
    for idx in 0..=text.len_chars() {
        assert_eq!(Idx(idx).to_coord(&text).to_idx(&text), Idx(idx));
    }
    assert_eq!(Idx(3).to_coord(&text), Coord { line: 1, column: 0 });
    assert_eq!(Idx(5).to_coord(&text), Coord { line: 2, column: 1 });
    assert_eq!(Idx(7).to_coord(&text), Coord { line: 3, column: 0 });
}

#[test]
fn an_index_past_the_end_is_the_end() {
    let text = Rope::from_str("ab\n");
    assert_eq!(Idx(100).to_coord(&text), Coord { line: 1, column: 0 });
    assert_eq!(Idx(100).to_coord(&Rope::from_str("")), Coord { line: 0, column: 0 });
}

#[test]
fn a_crlf_is_one_line_break() {
    let text = Rope::from_str("a\r\nb");
    assert_eq!(at(1, 0).to_idx(&text), Idx(3));
    assert_eq!(at(0, 9).to_idx(&text), Idx(2));
    assert_eq!(Idx(2).to_coord(&text), Coord { line: 0, column: 2 });
    let text = Rope::from_str("a\n\rb");
    assert_eq!(at(2, 0).to_idx(&text), Idx(3));
}

#[test]
fn all_line_breaks_end_lines() {
    let text = Rope::from_str("a\nb\u{b}c\u{c}d\re\u{85}f\u{2028}g\u{2029}h\u{1f}i");
    for line in 0..8 {
        assert_eq!(at(line, 0).to_idx(&text), Idx(2 * line));
    }
    assert_eq!(at(7, 100).to_idx(&text), Idx(text.len_chars()));
}

#[test]
fn indices_convert_to_numbers() {
    assert_eq!(Idx::from(7), Idx(7));
    assert_eq!(usize::from(Idx(7)), 7);
}

#[test]
fn forward_and_backward_by_chars() {
    let text = Rope::from_str("ab\ncd");
    assert_eq!(at(0, 1).forward(&text), at(0, 2));
    assert_eq!(at(0, 2).forward(&text), at(1, 0));
    assert_eq!(at(0, 100).forward(&text), at(1, 0));
    assert_eq!(at(1, 2).forward(&text), at(1, 2));
    assert_eq!(at(1, 0).backward(&text), at(0, 2));
    assert_eq!(at(0, 0).backward(&text), at(0, 0));
    assert_eq!(at(0, 0).forward_n(4, &text), at(1, 1));
    assert_eq!(at(0, 1).forward_n(usize::MAX, &text), at(1, 2));
}

#[test]
fn forward_and_backward_undo_each_other() {
    let text = Rope::from_str("ab\n\ncd\r\n");
    for idx in 0..text.len_chars() {
        let pos = CoordUnaligned::from(Idx(idx).to_coord(&text));
        assert_eq!(pos.forward(&text).backward(&text), pos);
        let next = pos.forward(&text);
        assert_eq!(next.backward(&text).forward(&text), next);
    }
}

#[test]
fn down_and_up_keep_the_column() {
    let text = Rope::from_str("abc\nd\nef");
    assert_eq!(at(0, 3).down_unaligned(&text), at(1, 3));
    assert_eq!(at(1, 3).down_unaligned(&text), at(2, 3));
    assert_eq!(at(2, 3).down_unaligned(&text), at(2, 3));
    assert_eq!(at(2, 3).up_unaligned(&text), at(1, 3));
    assert_eq!(at(0, 3).up_unaligned(&text), at(0, 3));
    assert_eq!(at(0, 3).down_unaligned(&text).up_unaligned(&text), at(0, 3));
    assert_eq!(at(2, 1).up_unaligned(&text).down_unaligned(&text), at(2, 1));
}

#[test]
fn ends_and_starts_of_lines() {
    let text = Rope::from_str("abc\nd\nef");
    assert_eq!(at(0, 1).forward_past_line_end(&text), at(1, 0));
    assert_eq!(at(2, 0).forward_past_line_end(&text), at(2, 2));
    assert_eq!(at(9, 0).forward_past_line_end(&text), at(2, 2));
    assert_eq!(at(2, 1).backward_to_line_start(&text), at(2, 0));
    assert_eq!(at(9, 1).backward_to_line_start(&text), at(2, 0));
}

#[test]
fn words_forward() {
    let text = Rope::from_str("one  two\nthree");
    assert_eq!(at(0, 0).forward_word(&text), (at(0, 0), at(0, 5)));
    assert_eq!(at(0, 3).forward_word(&text), (at(0, 3), at(0, 5)));
    assert_eq!(at(0, 5).forward_word(&text), (at(0, 5), at(1, 0)));
    assert_eq!(at(0, 99).forward_word(&text), (at(0, 8), at(1, 0)));
    assert_eq!(at(1, 2).forward_word(&text), (at(1, 2), at(1, 5)));
    assert_eq!(at(1, 5).forward_word(&text), (at(1, 5), at(1, 5)));
}

#[test]
fn words_backward() {
    let text = Rope::from_str("one  two\nthree");
    assert_eq!(at(1, 5).backward_word(&text), (at(1, 5), at(1, 0)));
    assert_eq!(at(1, 0).backward_word(&text), (at(1, 0), at(0, 5)));
    assert_eq!(at(0, 4).backward_word(&text), (at(0, 4), at(0, 0)));
    assert_eq!(at(0, 0).backward_word(&text), (at(0, 0), at(0, 0)));
}

#[test]
fn words_are_starts_of_words() {
    let text = Rope::from_str(" a bc\u{a0}d\n\n e ");
    let chars: Vec<char> = text.chars().collect();
    for idx in 0..=chars.len() {
        let pos = CoordUnaligned::from(Idx(idx).to_coord(&text));
        let next = pos.forward_word(&text).1.to_idx(&text).0;
        assert!(next > idx || idx == chars.len());
        if next < chars.len() {
            assert!(!chars[next].is_whitespace() && chars[next - 1].is_whitespace());
        }
        let previous = pos.backward_word(&text).1.to_idx(&text).0;
        assert!(previous < idx || idx == 0);
        if previous > 0 {
            assert!(!chars[previous].is_whitespace() && chars[previous - 1].is_whitespace());
        }
    }
}

#[test]
fn the_earlier_coordinate() {
    assert_eq!(earlier(at(0, 9), at(1, 0)), at(0, 9));
    assert_eq!(earlier(at(1, 0), at(0, 9)), at(0, 9));
    assert_eq!(earlier(at(1, 2), at(1, 1)), at(1, 1));
    assert_eq!(earlier(at(1, 1), at(1, 1)), at(1, 1));
}

#[test]
fn alignment_keeps_order() {
    let text = Rope::from_str("abc\n\nde");
    for a in 0..20 {
        for b in 0..20 {
            let first = at(a / 6, a % 6);
            let second = at(b / 6, b % 6);
            if first < second && second.line <= 2 {
                assert!(first.to_idx(&text) <= second.to_idx(&text));
            }
        }
    }
}

#[test]
fn spaces_are_those_of_unicode() {
    for c in '\0'..=char::MAX {
        assert_eq!(is_whitespace(c), c.is_whitespace());
    }
}

#[test]
fn control_codes_are_those_of_unicode() {
    for c in '\0'..=char::MAX {
        assert_eq!(is_control(c), c.is_control());
    }
}
