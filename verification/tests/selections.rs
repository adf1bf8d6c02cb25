use breeze::coord::CoordUnaligned;
use breeze::idx::Idx;
use breeze::selection::{Selection, SelectionUnaligned};
use ropey::Rope;

fn from_to(anchor: usize, cursor: usize) -> Selection {
    Selection { anchor: Idx(anchor), cursor: Idx(cursor) }
}

fn ends(anchor: (usize, usize), cursor: (usize, usize)) -> SelectionUnaligned {
    SelectionUnaligned {
        anchor: CoordUnaligned { line: anchor.0, column: anchor.1 },
        cursor: CoordUnaligned { line: cursor.0, column: cursor.1 },
    }
}

fn end_points(sel: SelectionUnaligned) -> ((usize, usize), (usize, usize)) {
    ((sel.anchor.line, sel.anchor.column), (sel.cursor.line, sel.cursor.column))
}

#[test]
fn a_selection_covers_its_smaller_end_only() {
    assert!(!from_to(2, 5).is_idx_inside(Idx(1)));
    assert!(from_to(2, 5).is_idx_inside(Idx(2)));
    assert!(from_to(2, 5).is_idx_inside(Idx(4)));
    assert!(!from_to(2, 5).is_idx_inside(Idx(5)));
    assert!(!from_to(3, 3).is_idx_inside(Idx(3)));
}

#[test]
fn the_direction_does_not_matter_for_what_is_covered() {
    for idx in 0..8 {
        assert_eq!(
            from_to(2, 5).is_idx_inside(Idx(idx)),
            from_to(5, 2).is_idx_inside(Idx(idx))
        );
        assert_eq!(
            from_to(2, 5).reversed().is_idx_inside(Idx(idx)),
            from_to(2, 5).is_idx_inside(Idx(idx))
        );
    }
}

#[test]
fn the_direction_of_a_selection() {
    assert_eq!(from_to(2, 5).is_forward(), Some(true));
    assert_eq!(from_to(5, 2).is_forward(), Some(false));
    assert_eq!(from_to(3, 3).is_forward(), None);
}

#[test]
fn sorted_ends() {
    assert_eq!(from_to(2, 5).sorted(), (Idx(2), Idx(5)));
    assert_eq!(from_to(5, 2).sorted(), (Idx(2), Idx(5)));
    assert_eq!(from_to(5, 2).sorted_range(), Idx(2)..Idx(5));
    assert_eq!(from_to(5, 2).sorted_range_usize(), 2..5);
    assert_eq!(from_to(4, 4).sorted_range_usize(), 4..4);
}

#[test]
fn collapsing_and_reversing_positions() {
    let sel = from_to(2, 5).collapsed();
    assert_eq!((sel.anchor, sel.cursor), (Idx(5), Idx(5)));
    let sel = from_to(2, 5).reversed();
    assert_eq!((sel.anchor, sel.cursor), (Idx(5), Idx(2)));
    let sel = Selection::default();
    assert_eq!((sel.anchor, sel.cursor), (Idx(0), Idx(0)));
}

#[test]
fn collapsing_and_reversing_coordinates() {
    let sel = ends((1, 2), (3, 4));
    assert_eq!(end_points(sel.collapsed()), ((3, 4), (3, 4)));
    assert_eq!(end_points(sel.collapsed().collapsed()), ((3, 4), (3, 4)));
    assert_eq!(end_points(sel.reversed()), ((3, 4), (1, 2)));
    assert_eq!(end_points(sel.reversed().reversed()), ((1, 2), (3, 4)));
    assert_eq!(end_points(SelectionUnaligned::default()), ((0, 0), (0, 0)));
}

#[test]
fn aligning_both_ends() {
    let text = Rope::from_str("ab\ncd");
    let sel = ends((0, 9), (9, 1)).align(&text);
    assert_eq!((sel.anchor, sel.cursor), (Idx(2), Idx(4)));
    assert_eq!(end_points(ends((0, 9), (9, 1)).trim(&text)), ((0, 2), (1, 1)));
}
