//! What each key does, in each of the modes.

use crate::coord::{
    aligned, aligned_idx, coord_at, lemma_aligned_idx_bounds, lemma_aligned_line, lemma_coord_at,
    line_start_of, next_word, past_line_end, previous_word, Pos,
};
use crate::edits::{
    after_backspace, after_delete, after_extend_line, after_insert, after_line, after_paste,
    before_cursors, line_anchor, removable, removals, removed_spans, stacked, starts, typed_spans,
    BufferModel,
};
use crate::geometry::{
    law_backward, law_first_word_after, law_forward, law_last_word_before, law_line_bounds,
    starts_word,
};
use crate::laws::{
    law_backspace_cursor, law_backspace_text, law_deleted_cursor, law_deleted_text,
    law_paste_selects, law_pasted_text, law_selection_in_text, law_typed_at_end, law_typed_cursor,
    law_typed_text, lemma_one_place, lemma_pasted_one, same_seam,
};
use crate::lines::{last_line, lemma_line_bounds, lemma_line_of_monotonic, line_of, line_start};
use crate::mode::{accepts, insert_step, mode_step, normal_step, yanks, Key, Mode, StateModel};
use crate::order::back_to_front;
use crate::places::{
    apart, in_edit_order, interleaved, kept, law_backspaced, law_deleted_selections,
    law_pasted_at_every_cursor, law_typed_at_every_cursor, woven,
};
use crate::rope::{cut, joined, spliced};
use crate::selection::Span;
use crate::session::law_pasting_keeps_selections;
use vstd::prelude::*;

verus! {

/// Whether two states differ in their buffers at most.
pub open spec fn same_but_buffer(a: StateModel, b: StateModel) -> bool {
    a.quit == b.quit && a.modes == b.modes && a.yanked == b.yanked
}

/// Whether two states differ at most in where the ends of their selections
/// are.
pub open spec fn same_but_ends(a: StateModel, b: StateModel) -> bool {
    &&& same_but_buffer(a, b)
    &&& a.buffer.text == b.buffer.text
    &&& a.buffer.primary == b.buffer.primary
    &&& a.buffer.spans.len() == b.buffer.spans.len()
}

/// Each mode handles keys in its own way.
pub proof fn law_modes(m: StateModel, stored: Seq<Seq<Seq<char>>>, key: Key)
    ensures
        mode_step(Mode::Insert, m, stored, key) == insert_step(m, key),
        mode_step(Mode::Normal, m, stored, key) == normal_step(m, stored, key),
{
}

/// In insert mode, a line feed or a char that is no control code is put in
/// once at every cursor, and nothing else of the text changes.
pub proof fn law_typed_key(m: StateModel, ch: char)
    requires
        m.buffer.valid(),
        ch == '\n' || '\u{20}' <= ch < '\u{7f}' || ch > '\u{9f}',
    ensures
        insert_step(m, Key::Char(ch)).buffer.text == interleaved(
            m.buffer.text,
            m.buffer.cursors(),
            ch,
            0,
        ),
        m.buffer.spans.len() == 1 ==> insert_step(m, Key::Char(ch)).buffer.text == spliced(
            m.buffer.text,
            m.buffer.cursors()[0],
            seq![ch],
        ),
        same_but_buffer(m, insert_step(m, Key::Char(ch))),
        insert_step(m, Key::Char(ch)).buffer.primary == m.buffer.primary,
{
    law_typed_at_every_cursor(m.buffer, ch);
    if m.buffer.spans.len() == 1 {
        law_typed_text(m.buffer, ch);
    }
}

/// In insert mode, typing with one cursor leaves the cursor one char further
/// on than where it falls in the new text, with nothing selected.  That is
/// right after the char, if the cursor lies in the text or falls on its end,
/// and if the char makes or breaks no CRLF with the one before it.
pub proof fn law_typed_key_cursor(m: StateModel, ch: char)
    requires
        m.buffer.valid(),
        m.buffer.spans.len() == 1,
        ch == '\n' || '\u{20}' <= ch < '\u{7f}' || ch > '\u{9f}',
    ensures
        ({
            let text = insert_step(m, Key::Char(ch)).buffer.text;
            let at = m.buffer.cursors()[0];
            let seen = aligned_idx(text, m.buffer.spans[0].cursor);
            let moved = if seen < text.len() {
                seen + 1
            } else {
                seen
            };
            let pos = coord_at(text, moved);
            &&& insert_step(m, Key::Char(ch)).buffer.spans == seq![
                Span { anchor: pos, cursor: pos },
            ]
            &&& insert_step(m, Key::Char(ch)).buffer.cursors() == seq![moved]
            &&& at == m.buffer.text.len() || (m.buffer.spans[0].cursor == aligned(
                m.buffer.text,
                m.buffer.spans[0].cursor,
            ) && same_seam(m.buffer.text, text, at)) ==> moved == at + 1
        }),
{
    let b = m.buffer;
    let new = after_insert(b, ch);
    let at = b.cursors()[0];
    law_typed_text(b, ch);
    assert(b.spans[0].valid());
    lemma_aligned_idx_bounds(new.text, b.spans[0].cursor);
    assert(b.cursors() =~= seq![at]);
    lemma_one_place(at);
    let order = back_to_front(b.cursors());
    assert(order.take(1)[0] == 0);
    assert(order.take(1).contains(0));
    reveal_with_fuel(typed_spans, 2);
    let seen = aligned_idx(new.text, b.spans[0].cursor);
    let moved = if seen < new.text.len() {
        seen + 1
    } else {
        seen
    };
    lemma_coord_at(new.text, moved);
    let pos = coord_at(new.text, moved);
    assert(new.spans =~= seq![Span { anchor: pos, cursor: pos }]);
    assert(new.cursors() =~= seq![moved]);
    if at == b.text.len() {
        law_typed_at_end(b, ch);
        assert(new.cursors()[0] == at + 1);
    } else if b.spans[0].cursor == aligned(b.text, b.spans[0].cursor) && same_seam(
        b.text,
        new.text,
        at,
    ) {
        law_typed_cursor(b, ch);
        assert(new.cursors()[0] == at + 1);
    }
}

/// In insert mode, the other control codes are not typed.
pub proof fn law_control_codes(m: StateModel, ch: char)
    requires
        ch != '\n',
        ch < '\u{20}' || '\u{7f}' <= ch <= '\u{9f}',
    ensures
        insert_step(m, Key::Char(ch)) == m,
{
}

/// In insert mode, the key Backspace takes the char before every cursor out,
/// and nothing else of the text.
pub proof fn law_backspace_key(m: StateModel)
    requires
        m.buffer.valid(),
        forall|i: int|
            0 <= i < m.buffer.cursors().len() ==> #[trigger] m.buffer.cursors()[i] > 0,
        forall|i: int, j: int|
            0 <= i < j < m.buffer.cursors().len() ==> #[trigger] m.buffer.cursors()[i]
                != #[trigger] m.buffer.cursors()[j],
    ensures
        insert_step(m, Key::Backspace).buffer.text == kept(
            m.buffer.text,
            Seq::new(
                m.buffer.spans.len(),
                |i: int| (m.buffer.cursors()[i] - 1, m.buffer.cursors()[i]),
            ),
            0,
        ),
        m.buffer.spans.len() == 1 ==> insert_step(m, Key::Backspace).buffer.text == cut(
            m.buffer.text,
            m.buffer.cursors()[0] - 1,
            m.buffer.cursors()[0],
        ),
        m.buffer.spans.len() == 1 ==> insert_step(m, Key::Backspace).buffer.spans == ({
            let pos = coord_at(m.buffer.text, m.buffer.cursors()[0] - 1);
            seq![Span { anchor: pos, cursor: pos }]
        }),
        same_but_buffer(m, insert_step(m, Key::Backspace)),
        insert_step(m, Key::Backspace).buffer.primary == m.buffer.primary,
{
    law_backspaced(m.buffer);
    assert(before_cursors(m.buffer) =~= Seq::new(
        m.buffer.spans.len(),
        |i: int| (m.buffer.cursors()[i] - 1, m.buffer.cursors()[i]),
    ));
    if m.buffer.spans.len() == 1 {
        assert(m.buffer.cursors()[0] > 0);
        law_backspace_text(m.buffer);
        law_backspace_cursor(m.buffer);
    }
}

/// The key Esc leaves insert mode for the mode before it, and changes nothing
/// else.
pub proof fn law_escape_key(m: StateModel)
    requires
        m.modes.len() > 0,
    ensures
        insert_step(m, Key::Esc).modes == m.modes.take(m.modes.len() - 1),
        insert_step(m, Key::Esc).buffer == m.buffer,
        insert_step(m, Key::Esc).quit == m.quit,
        insert_step(m, Key::Esc).yanked == m.yanked,
{
    assert(m.modes.drop_last() =~= m.modes.take(m.modes.len() - 1));
}

/// Where the anchor of a selection goes when its cursor moves: to where the
/// cursor was, or nowhere if the selection is extended.
pub open spec fn anchor_after(s: Span, extends: bool) -> Pos {
    if extends {
        s.anchor
    } else {
        s.cursor
    }
}

/// The left arrow, and `h` and `H` in normal mode, take every cursor to the
/// char before it, if there is one.
pub proof fn law_left_keys(mode: Mode, m: StateModel, stored: Seq<Seq<Seq<char>>>, key: Key)
    requires
        m.buffer.valid(),
        key == Key::Left || mode == Mode::Normal && (key == Key::Char('h') || key == Key::Char(
            'H',
        )),
    ensures
        same_but_ends(m, mode_step(mode, m, stored, key)),
        forall|i: int|
            0 <= i < m.buffer.spans.len() ==> {
                let text = m.buffer.text;
                let old = m.buffer.spans[i];
                let new = #[trigger] mode_step(mode, m, stored, key).buffer.spans[i];
                let at = aligned_idx(text, old.cursor);
                &&& new.anchor == anchor_after(old, key == Key::Char('H'))
                &&& new.cursor == coord_at(text, aligned_idx(text, new.cursor))
                &&& aligned_idx(text, new.cursor) == if at > 0 {
                    at - 1
                } else {
                    0
                }
            },
{
    let b = m.buffer;
    let step = mode_step(mode, m, stored, key);
    assert(step.buffer.spans.len() == b.spans.len());
    assert forall|i: int| 0 <= i < b.spans.len() implies {
        let old = b.spans[i];
        let new = #[trigger] step.buffer.spans[i];
        let at = aligned_idx(b.text, old.cursor);
        &&& new.anchor == anchor_after(old, key == Key::Char('H'))
        &&& new.cursor == coord_at(b.text, aligned_idx(b.text, new.cursor))
        &&& aligned_idx(b.text, new.cursor) == if at > 0 {
            at - 1
        } else {
            0
        }
    } by {
        assert(b.spans[i].valid());
        law_backward(b.text, b.spans[i].cursor);
        lemma_aligned_idx_bounds(b.text, b.spans[i].cursor);
    }
}

/// The right arrow, and `l` and `L` in normal mode, take every cursor past the
/// next char, if there is one.
pub proof fn law_right_keys(mode: Mode, m: StateModel, stored: Seq<Seq<Seq<char>>>, key: Key)
    requires
        m.buffer.valid(),
        key == Key::Right || mode == Mode::Normal && (key == Key::Char('l') || key == Key::Char(
            'L',
        )),
    ensures
        same_but_ends(m, mode_step(mode, m, stored, key)),
        forall|i: int|
            0 <= i < m.buffer.spans.len() ==> {
                let text = m.buffer.text;
                let old = m.buffer.spans[i];
                let new = #[trigger] mode_step(mode, m, stored, key).buffer.spans[i];
                let at = aligned_idx(text, old.cursor);
                &&& new.anchor == anchor_after(old, key == Key::Char('L'))
                &&& new.cursor == coord_at(text, aligned_idx(text, new.cursor))
                &&& aligned_idx(text, new.cursor) == if at < text.len() {
                    at + 1
                } else {
                    at
                }
            },
{
    let b = m.buffer;
    let step = mode_step(mode, m, stored, key);
    assert(step.buffer.spans.len() == b.spans.len());
    assert forall|i: int| 0 <= i < b.spans.len() implies {
        let old = b.spans[i];
        let new = #[trigger] step.buffer.spans[i];
        let at = aligned_idx(b.text, old.cursor);
        &&& new.anchor == anchor_after(old, key == Key::Char('L'))
        &&& new.cursor == coord_at(b.text, aligned_idx(b.text, new.cursor))
        &&& aligned_idx(b.text, new.cursor) == if at < b.text.len() {
            at + 1
        } else {
            at
        }
    } by {
        assert(b.spans[i].valid());
        law_forward(b.text, b.spans[i].cursor, 1);
        lemma_aligned_idx_bounds(b.text, b.spans[i].cursor);
    }
}

/// The down and up arrows, and `j`, `J`, `k` and `K` in normal mode, take every
/// cursor to the line below or above, if there is one, at the same column.
pub proof fn law_up_and_down_keys(
    mode: Mode,
    m: StateModel,
    stored: Seq<Seq<Seq<char>>>,
    key: Key,
    down: bool,
)
    requires
        m.buffer.valid(),
        down ==> key == Key::Down || mode == Mode::Normal && (key == Key::Char('j') || key
            == Key::Char('J')),
        !down ==> key == Key::Up || mode == Mode::Normal && (key == Key::Char('k') || key
            == Key::Char('K')),
    ensures
        same_but_ends(m, mode_step(mode, m, stored, key)),
        forall|i: int|
            0 <= i < m.buffer.spans.len() ==> {
                let old = m.buffer.spans[i];
                let new = #[trigger] mode_step(mode, m, stored, key).buffer.spans[i];
                &&& new.anchor == anchor_after(
                    old,
                    key == Key::Char('J') || key == Key::Char('K'),
                )
                &&& new.cursor.column == old.cursor.column
                &&& new.cursor.line == if down {
                    if old.cursor.line < last_line(m.buffer.text) {
                        old.cursor.line + 1
                    } else {
                        old.cursor.line
                    }
                } else {
                    if old.cursor.line > 0 {
                        old.cursor.line - 1
                    } else {
                        0
                    }
                }
            },
{
    let b = m.buffer;
    let step = mode_step(mode, m, stored, key);
    assert(step.buffer.spans.len() == b.spans.len());
    assert forall|i: int| 0 <= i < b.spans.len() implies {
        let old = b.spans[i];
        let new = #[trigger] step.buffer.spans[i];
        &&& new.anchor == anchor_after(old, key == Key::Char('J') || key == Key::Char('K'))
        &&& new.cursor.column == old.cursor.column
        &&& new.cursor.line == if down {
            if old.cursor.line < last_line(b.text) {
                old.cursor.line + 1
            } else {
                old.cursor.line
            }
        } else {
            if old.cursor.line > 0 {
                old.cursor.line - 1
            } else {
                0
            }
        }
    } by {
        assert(b.spans[i].valid());
    }
}

/// `w` and `W` take every cursor to the first word that starts after it, or to
/// the end of the text.  `w` leaves the anchor where the cursor was.
pub proof fn law_word_keys(m: StateModel, stored: Seq<Seq<Seq<char>>>, key: Key)
    requires
        m.buffer.valid(),
        key == Key::Char('w') || key == Key::Char('W'),
    ensures
        same_but_ends(m, normal_step(m, stored, key)),
        forall|i: int|
            0 <= i < m.buffer.spans.len() ==> {
                let text = m.buffer.text;
                let old = m.buffer.spans[i];
                let new = #[trigger] normal_step(m, stored, key).buffer.spans[i];
                let at = aligned_idx(text, old.cursor);
                let to = aligned_idx(text, new.cursor);
                &&& new.anchor == if key == Key::Char('w') {
                    coord_at(text, at)
                } else {
                    old.anchor
                }
                &&& new.cursor == coord_at(text, to)
                &&& at <= to <= text.len()
                &&& at < text.len() ==> at < to
                &&& to < text.len() ==> starts_word(text, to)
                &&& forall|j: int| at < j < to ==> !#[trigger] starts_word(text, j)
            },
{
    let b = m.buffer;
    let step = normal_step(m, stored, key);
    assert(step.buffer.spans.len() == b.spans.len());
    assert forall|i: int| 0 <= i < b.spans.len() implies {
        let old = b.spans[i];
        let new = #[trigger] step.buffer.spans[i];
        let at = aligned_idx(b.text, old.cursor);
        let to = aligned_idx(b.text, new.cursor);
        &&& new.anchor == if key == Key::Char('w') {
            coord_at(b.text, at)
        } else {
            old.anchor
        }
        &&& new.cursor == coord_at(b.text, to)
        &&& at <= to <= b.text.len()
        &&& at < b.text.len() ==> at < to
        &&& to < b.text.len() ==> starts_word(b.text, to)
        &&& forall|j: int| at < j < to ==> !#[trigger] starts_word(b.text, j)
    } by {
        assert(b.spans[i].valid());
        let at = aligned_idx(b.text, b.spans[i].cursor);
        lemma_aligned_idx_bounds(b.text, b.spans[i].cursor);
        law_first_word_after(b.text, at);
        lemma_coord_at(b.text, next_word(b.text, at));
    }
}

/// `b` and `B` take every cursor to the last word that starts before it, or to
/// the start of the text.  `b` leaves the anchor where the cursor was.
pub proof fn law_back_word_keys(m: StateModel, stored: Seq<Seq<Seq<char>>>, key: Key)
    requires
        m.buffer.valid(),
        key == Key::Char('b') || key == Key::Char('B'),
    ensures
        same_but_ends(m, normal_step(m, stored, key)),
        forall|i: int|
            0 <= i < m.buffer.spans.len() ==> {
                let text = m.buffer.text;
                let old = m.buffer.spans[i];
                let new = #[trigger] normal_step(m, stored, key).buffer.spans[i];
                let at = aligned_idx(text, old.cursor);
                let to = aligned_idx(text, new.cursor);
                &&& new.anchor == if key == Key::Char('b') {
                    coord_at(text, at)
                } else {
                    old.anchor
                }
                &&& new.cursor == coord_at(text, to)
                &&& 0 <= to <= at
                &&& at > 0 ==> to < at
                &&& to > 0 ==> starts_word(text, to)
                &&& forall|j: int| to < j < at ==> !#[trigger] starts_word(text, j)
            },
{
    let b = m.buffer;
    let step = normal_step(m, stored, key);
    assert(step.buffer.spans.len() == b.spans.len());
    assert forall|i: int| 0 <= i < b.spans.len() implies {
        let old = b.spans[i];
        let new = #[trigger] step.buffer.spans[i];
        let at = aligned_idx(b.text, old.cursor);
        let to = aligned_idx(b.text, new.cursor);
        &&& new.anchor == if key == Key::Char('b') {
            coord_at(b.text, at)
        } else {
            old.anchor
        }
        &&& new.cursor == coord_at(b.text, to)
        &&& 0 <= to <= at
        &&& at > 0 ==> to < at
        &&& to > 0 ==> starts_word(b.text, to)
        &&& forall|j: int| to < j < at ==> !#[trigger] starts_word(b.text, j)
    } by {
        assert(b.spans[i].valid());
        let at = aligned_idx(b.text, b.spans[i].cursor);
        lemma_aligned_idx_bounds(b.text, b.spans[i].cursor);
        law_last_word_before(b.text, at);
        lemma_coord_at(b.text, previous_word(b.text, at));
    }
}

/// The bounds of the lines from the one that the position `first` is on up to
/// the one that the position `last` is on.
pub open spec fn bounds_of_lines(text: Seq<char>, first: int, last: int) -> (int, int) {
    (line_start(text, line_of(text, first)), line_start(text, line_of(text, last) + 1))
}

/// Whether a selection starts where the line of the position `first` does,
/// stops where the line of the position `last` does, and has its cursor there.
pub open spec fn spans_lines(text: Seq<char>, s: Span, first: int, last: int) -> bool {
    let (from, to) = bounds_of_lines(text, first, last);
    &&& from <= to <= text.len()
    &&& s.anchor.column == 0
    &&& aligned_idx(text, s.anchor) == from
    &&& s.cursor == coord_at(text, to)
    &&& aligned_idx(text, s.cursor) == to
}

/// `x` selects the line of every cursor.
pub proof fn law_line_key(m: StateModel, stored: Seq<Seq<Seq<char>>>)
    requires
        m.buffer.valid(),
    ensures
        same_but_ends(m, normal_step(m, stored, Key::Char('x'))),
        forall|i: int|
            0 <= i < m.buffer.spans.len() ==> spans_lines(
                m.buffer.text,
                #[trigger] normal_step(m, stored, Key::Char('x')).buffer.spans[i],
                m.buffer.cursors()[i],
                m.buffer.cursors()[i],
            ),
{
    let b = m.buffer;
    let new = normal_step(m, stored, Key::Char('x')).buffer;
    assert forall|i: int| 0 <= i < b.spans.len() implies spans_lines(
        b.text,
        #[trigger] new.spans[i],
        b.cursors()[i],
        b.cursors()[i],
    ) by {
        assert(b.spans[i].valid());
        lemma_line_extended(b.text, b.spans[i]);
    }
}

/// `X` extends every selection to whole lines: from the start of the line that
/// its earlier end is on up to where the line of its cursor stops.
pub proof fn law_extend_line_key(m: StateModel, stored: Seq<Seq<Seq<char>>>)
    requires
        m.buffer.valid(),
    ensures
        same_but_ends(m, normal_step(m, stored, Key::Char('X'))),
        forall|i: int|
            0 <= i < m.buffer.spans.len() ==> spans_lines(
                m.buffer.text,
                #[trigger] normal_step(m, stored, Key::Char('X')).buffer.spans[i],
                m.buffer.ranges()[i].0,
                m.buffer.cursors()[i],
            ),
{
    let b = m.buffer;
    let new = normal_step(m, stored, Key::Char('X')).buffer;
    assert forall|i: int| 0 <= i < b.spans.len() implies spans_lines(
        b.text,
        #[trigger] new.spans[i],
        b.ranges()[i].0,
        b.cursors()[i],
    ) by {
        assert(b.spans[i].valid());
        lemma_line_extended(b.text, b.spans[i]);
    }
}

/// `after_extend_line(m).ranges()[i]` spans whole lines, whatever the
/// selection is.
pub proof fn law_extended_lines(m: BufferModel, i: int)
    requires
        m.valid(),
        0 <= i < m.spans.len(),
    ensures
        after_extend_line(m).ranges()[i] == (
            line_start(m.text, line_of(m.text, m.spans[i].start(m.text))),
            line_start(m.text, line_of(m.text, m.cursors()[i]) + 1),
        ),
        after_line(m).ranges()[i] == (
            line_start(m.text, line_of(m.text, m.cursors()[i])),
            line_start(m.text, line_of(m.text, m.cursors()[i]) + 1),
        ),
{
    assert(m.spans[i].valid());
    lemma_line_extended(m.text, m.spans[i]);
}

/// The bounds of the lines that a selection is extended to.
proof fn lemma_line_extended(text: Seq<char>, s: Span)
    requires
        s.valid(),
    ensures
        ({
            let anchor = line_anchor(text, s);
            let to = line_start(text, line_of(text, aligned_idx(text, s.cursor)) + 1);
            let start = line_start(text, line_of(text, s.start(text)));
            let own = line_start(text, line_of(text, aligned_idx(text, s.cursor)));
            &&& anchor.column == 0
            &&& aligned_idx(text, anchor) == start
            &&& start <= own <= to <= text.len()
            &&& past_line_end(text, s.cursor) == coord_at(text, to)
            &&& aligned_idx(text, coord_at(text, to)) == to
            &&& line_start_of(text, s.cursor).column == 0
            &&& aligned_idx(text, line_start_of(text, s.cursor)) == own
        }),
{
    let a = aligned_idx(text, s.anchor);
    let c = aligned_idx(text, s.cursor);
    lemma_aligned_idx_bounds(text, s.anchor);
    lemma_aligned_idx_bounds(text, s.cursor);
    lemma_aligned_line(text, s.anchor);
    lemma_aligned_line(text, s.cursor);
    law_line_bounds(text, s.anchor);
    law_line_bounds(text, s.cursor);
    if a <= c {
        lemma_line_of_monotonic(text, a, c);
    } else {
        lemma_line_of_monotonic(text, c, a);
    }
    let first = line_of(text, s.start(text));
    let own = line_of(text, c);
    assert(0 <= first <= own <= last_line(text));
    lemma_line_bounds(text, first);
    lemma_line_bounds(text, own);
    lemma_lines_in_order(text, first, own);
}

proof fn lemma_lines_in_order(text: Seq<char>, a: int, b: int)
    requires
        0 <= a <= b <= last_line(text),
    ensures
        line_start(text, a) <= line_start(text, b),
    decreases b - a,
{
    if a < b {
        lemma_lines_in_order(text, a, b - 1);
        lemma_line_bounds(text, b - 1);
    }
}

/// `d` yanks what is selected and takes it out, and changes nothing else of
/// the text.  With one selection the cursor stays if it is where the selection
/// starts, and else goes there.
pub proof fn law_delete_key(m: StateModel, stored: Seq<Seq<Seq<char>>>)
    requires
        m.buffer.valid(),
    ensures
        normal_step(m, stored, Key::Char('d')).yanked == Seq::new(
            m.buffer.spans.len(),
            |i: int| m.buffer.text.subrange(m.buffer.ranges()[i].0, m.buffer.ranges()[i].1),
        ),
        apart(m.buffer.text, m.buffer.ranges()) ==> normal_step(
            m,
            stored,
            Key::Char('d'),
        ).buffer.text == kept(m.buffer.text, m.buffer.ranges(), 0),
        m.buffer.spans.len() == 1 ==> normal_step(m, stored, Key::Char('d')).buffer.text == cut(
            m.buffer.text,
            m.buffer.ranges()[0].0,
            m.buffer.ranges()[0].1,
        ),
        m.buffer.spans.len() == 1 ==> normal_step(m, stored, Key::Char('d')).buffer.spans == ({
            let start = m.buffer.ranges()[0].0;
            let pos = if m.buffer.cursors()[0] == start {
                m.buffer.spans[0].cursor
            } else {
                coord_at(m.buffer.text, start)
            };
            seq![Span { anchor: pos, cursor: pos }]
        }),
        normal_step(m, stored, Key::Char('d')).quit == m.quit,
        normal_step(m, stored, Key::Char('d')).modes == m.modes,
        normal_step(m, stored, Key::Char('d')).buffer.primary == m.buffer.primary,
{
    let b = m.buffer;
    assert(b.selected() =~= Seq::new(
        b.spans.len(),
        |i: int| b.text.subrange(b.ranges()[i].0, b.ranges()[i].1),
    ));
    if apart(b.text, b.ranges()) {
        law_deleted_selections(b);
    }
    if b.spans.len() == 1 {
        let s = b.spans[0];
        assert(s.valid());
        law_deleted_text(b);
        law_selection_in_text(b.text, s);
        let (start, end) = (s.start(b.text), s.end(b.text));
        if start < b.cursors()[0] {
            law_deleted_cursor(b);
        } else {
            assert(b.ranges() =~= seq![(start, end)]);
            assert(starts(b.ranges()) =~= seq![start]);
            lemma_one_place(start);
            reveal_with_fuel(removed_spans, 2);
            reveal_with_fuel(removals, 2);
            assert(after_delete(b).spans =~= seq![Span { anchor: s.cursor, cursor: s.cursor }]);
        }
    }
}

/// `c` does what `d` does, and goes on in insert mode.
pub proof fn law_change_key(m: StateModel, stored: Seq<Seq<Seq<char>>>)
    ensures
        normal_step(m, stored, Key::Char('c')).buffer == normal_step(
            m,
            stored,
            Key::Char('d'),
        ).buffer,
        normal_step(m, stored, Key::Char('c')).yanked == normal_step(
            m,
            stored,
            Key::Char('d'),
        ).yanked,
        normal_step(m, stored, Key::Char('c')).quit == m.quit,
        normal_step(m, stored, Key::Char('c')).modes == m.modes + seq![Mode::Insert],
{
    assert(m.modes.push(Mode::Insert) =~= m.modes + seq![Mode::Insert]);
}

/// `y` yanks what is selected, and changes nothing else.
pub proof fn law_yank_key(m: StateModel, stored: Seq<Seq<Seq<char>>>)
    ensures
        normal_step(m, stored, Key::Char('y')).yanked == Seq::new(
            m.buffer.spans.len(),
            |i: int| m.buffer.text.subrange(m.buffer.ranges()[i].0, m.buffer.ranges()[i].1),
        ),
        normal_step(m, stored, Key::Char('y')).buffer == m.buffer,
        normal_step(m, stored, Key::Char('y')).quit == m.quit,
        normal_step(m, stored, Key::Char('y')).modes == m.modes,
{
    assert(m.buffer.selected() =~= Seq::new(
        m.buffer.spans.len(),
        |i: int| m.buffer.text.subrange(m.buffer.ranges()[i].0, m.buffer.ranges()[i].1),
    ));
}

/// `p` and `P` put the yanked texts in at the cursors, the first one at the
/// last cursor, and change nothing else of the text, whatever is selected and
/// wherever the cursors are.
pub proof fn law_paste_keys(m: StateModel, stored: Seq<Seq<Seq<char>>>, key: Key)
    requires
        m.buffer.valid(),
        key == Key::Char('p') || key == Key::Char('P'),
    ensures
        normal_step(m, stored, key).buffer.text == ({
            let pieces = stored.map_values(|s: Seq<Seq<char>>| stacked(s));
            let points = in_edit_order(m.buffer.cursors());
            if pieces.len() < points.len() {
                woven(m.buffer.text, points.take(pieces.len() as int), pieces, 0)
            } else {
                woven(m.buffer.text, points, pieces, 0)
            }
        }),
        same_but_buffer(m, normal_step(m, stored, key)),
        normal_step(m, stored, key).buffer.primary == m.buffer.primary,
        normal_step(m, stored, key).buffer.spans.len() == m.buffer.spans.len(),
{
    law_pasted_at_every_cursor(m.buffer, stored, true);
    law_pasted_at_every_cursor(m.buffer, stored, false);
    law_pasting_keeps_selections(m.buffer, stored, true);
    law_pasting_keeps_selections(m.buffer, stored, false);
}

/// With one selection and one yanked text, `p` and `P` put the text in at the
/// cursor, whatever is selected and wherever the cursor is.
///
/// The pieces of the text read the same in either order, as those of a text
/// that is stored in one piece do.
pub proof fn law_paste_key_text(m: StateModel, pieces: Seq<Seq<char>>, key: Key)
    requires
        m.buffer.valid(),
        m.buffer.spans.len() == 1,
        stacked(pieces) == joined(pieces),
        key == Key::Char('p') || key == Key::Char('P'),
    ensures
        normal_step(m, seq![pieces], key).buffer.text == spliced(
            m.buffer.text,
            m.buffer.cursors()[0],
            joined(pieces),
        ),
{
    law_pasted_text(m.buffer, pieces, true);
    law_pasted_text(m.buffer, pieces, false);
}

/// With one selection and one yanked text, where `p` and `P` leave the ends of
/// the selection, by where they fall in the new text: one of them moves forward
/// by the length of what was pasted.  `p` moves it from where the cursor was,
/// so that what was pasted is selected; `P` moves the greater end.
pub proof fn law_paste_key_ends(m: StateModel, pieces: Seq<Seq<char>>)
    requires
        m.buffer.valid(),
        m.buffer.spans.len() == 1,
        stacked(pieces) == joined(pieces),
    ensures
        ({
            let text = spliced(m.buffer.text, m.buffer.cursors()[0], joined(pieces));
            let n = joined(pieces).len() as int;
            let old = m.buffer.spans[0];
            let p = normal_step(m, seq![pieces], Key::Char('p')).buffer.spans;
            let q = normal_step(m, seq![pieces], Key::Char('P')).buffer.spans;
            let cursor = aligned_idx(text, old.cursor);
            let anchor = aligned_idx(text, old.anchor);
            &&& p.len() == 1 && q.len() == 1
            &&& cursor >= anchor ==> {
                &&& p[0].anchor == old.cursor
                &&& p[0].cursor == coord_at(text, no_more(cursor + n, text.len() as int))
                &&& q[0].anchor == old.anchor
                &&& q[0].cursor == coord_at(text, no_more(cursor + n, text.len() as int))
            }
            &&& cursor < anchor ==> {
                &&& p[0].anchor == coord_at(text, no_more(cursor + n, text.len() as int))
                &&& p[0].cursor == old.cursor
                &&& q[0].anchor == coord_at(text, no_more(anchor + n, text.len() as int))
                &&& q[0].cursor == old.cursor
            }
        }),
{
    law_paste_key_text(m, pieces, Key::Char('p'));
    law_paste_key_text(m, pieces, Key::Char('P'));
    lemma_pasted_one(m.buffer, pieces, false);
    lemma_pasted_one(m.buffer, pieces, true);
    assert(m.buffer.spans[0].valid());
}

/// A number, but no more than another one.
pub open spec fn no_more(n: int, most: int) -> int {
    if n <= most {
        n
    } else {
        most
    }
}

/// With one selection and one yanked text, `p` selects what was pasted, where
/// it was pasted.
///
/// The cursor lies in the text, the pieces of what is pasted read the same in
/// either order, and it makes or breaks no CRLF with the char before the
/// cursor.
pub proof fn law_paste_key_selects(m: StateModel, pieces: Seq<Seq<char>>)
    requires
        m.buffer.valid(),
        m.buffer.spans.len() == 1,
        stacked(pieces) == joined(pieces),
        m.buffer.spans[0].cursor == aligned(m.buffer.text, m.buffer.spans[0].cursor),
        same_seam(
            m.buffer.text,
            spliced(m.buffer.text, m.buffer.cursors()[0], joined(pieces)),
            m.buffer.cursors()[0],
        ),
    ensures
        normal_step(m, seq![pieces], Key::Char('p')).buffer.ranges() == seq![
            (m.buffer.cursors()[0], m.buffer.cursors()[0] + joined(pieces).len()),
        ],
        normal_step(m, seq![pieces], Key::Char('p')).buffer.selected() == seq![joined(pieces)],
{
    law_pasted_text(m.buffer, pieces, false);
    law_paste_selects(m.buffer, pieces);
}

/// `'` and Alt with `;` swap the ends of every selection, and change nothing
/// else.
pub proof fn law_reverse_keys(m: StateModel, stored: Seq<Seq<Seq<char>>>, key: Key)
    requires
        key == Key::Char('\'') || key == Key::Alt(';'),
    ensures
        same_but_ends(m, normal_step(m, stored, key)),
        forall|i: int|
            0 <= i < m.buffer.spans.len() ==> {
                let new = #[trigger] normal_step(m, stored, key).buffer.spans[i];
                new.anchor == m.buffer.spans[i].cursor && new.cursor == m.buffer.spans[i].anchor
            },
{
}

/// `q` quits and `i` goes over to insert mode, and neither changes anything
/// else.
pub proof fn law_quit_and_insert_keys(m: StateModel, stored: Seq<Seq<Seq<char>>>)
    ensures
        normal_step(m, stored, Key::Char('q')).quit,
        normal_step(m, stored, Key::Char('q')).modes == m.modes,
        normal_step(m, stored, Key::Char('q')).buffer == m.buffer,
        normal_step(m, stored, Key::Char('q')).yanked == m.yanked,
        normal_step(m, stored, Key::Char('i')).quit == m.quit,
        normal_step(m, stored, Key::Char('i')).modes == m.modes + seq![Mode::Insert],
        normal_step(m, stored, Key::Char('i')).buffer == m.buffer,
        normal_step(m, stored, Key::Char('i')).yanked == m.yanked,
{
    assert(m.modes.push(Mode::Insert) =~= m.modes + seq![Mode::Insert]);
}

/// All other keys do nothing.
pub proof fn law_other_keys(mode: Mode, m: StateModel, stored: Seq<Seq<Seq<char>>>, key: Key)
    requires
        key != Key::Left && key != Key::Right && key != Key::Up && key != Key::Down,
        mode == Mode::Insert ==> key != Key::Esc && key != Key::Backspace && !(key is Char),
        mode == Mode::Normal ==> key != Key::Alt(';'),
        mode == Mode::Normal ==> (key matches Key::Char(ch) ==> !seq![
            'q',
            'i',
            'h',
            'H',
            'l',
            'L',
            'j',
            'J',
            'k',
            'K',
            'd',
            'c',
            'y',
            'p',
            'P',
            'w',
            'W',
            'b',
            'B',
            'x',
            'X',
            '\'',
        ].contains(ch)),
    ensures
        mode_step(mode, m, stored, key) == m,
{
    if let Key::Char(ch) = key {
        if mode == Mode::Normal {
            let all = seq![
                'q',
                'i',
                'h',
                'H',
                'l',
                'L',
                'j',
                'J',
                'k',
                'K',
                'd',
                'c',
                'y',
                'p',
                'P',
                'w',
                'W',
                'b',
                'B',
                'x',
                'X',
                '\'',
            ];
            assert forall|i: int| 0 <= i < all.len() implies #[trigger] all[i] != ch by {}
            assert(all[0] != ch && all[1] != ch && all[2] != ch && all[3] != ch && all[4] != ch
                && all[5] != ch && all[6] != ch && all[7] != ch && all[8] != ch && all[9] != ch
                && all[10] != ch && all[11] != ch && all[12] != ch && all[13] != ch && all[14]
                != ch && all[15] != ch && all[16] != ch && all[17] != ch && all[18] != ch
                && all[19] != ch && all[20] != ch && all[21] != ch);
        }
    }
}

/// The keys that edit the text do so at all selections, whatever they are.
pub proof fn law_editing_keys(m: StateModel, stored: Seq<Seq<Seq<char>>>, ch: char)
    ensures
        insert_step(m, Key::Backspace).buffer == after_backspace(m.buffer),
        ch == '\n' || '\u{20}' <= ch < '\u{7f}' || ch > '\u{9f}' ==> insert_step(
            m,
            Key::Char(ch),
        ).buffer == after_insert(m.buffer, ch),
        normal_step(m, stored, Key::Char('d')).buffer == after_delete(m.buffer),
        normal_step(m, stored, Key::Char('p')).buffer == after_paste(m.buffer, stored, false),
        normal_step(m, stored, Key::Char('P')).buffer == after_paste(m.buffer, stored, true),
{
}

/// A key is accepted if and only if it is not one that takes text out, or the
/// text that it takes out is there.
pub proof fn law_accepts(mode: Mode, m: StateModel, key: Key)
    ensures
        accepts(mode, m, key) <==> {
            &&& mode == Mode::Insert && key == Key::Backspace ==> removable(
                m.buffer.text,
                Seq::new(
                    m.buffer.spans.len(),
                    |i: int| (m.buffer.cursors()[i] - 1, m.buffer.cursors()[i]),
                ),
            )
            &&& mode == Mode::Normal && (key == Key::Char('d') || key == Key::Char('c'))
                ==> removable(m.buffer.text, m.buffer.ranges())
        },
        yanks(mode, key) <==> mode == Mode::Normal && (key == Key::Char('d') || key == Key::Char(
            'c',
        ) || key == Key::Char('y')),
{
    assert(before_cursors(m.buffer) =~= Seq::new(
        m.buffer.spans.len(),
        |i: int| (m.buffer.cursors()[i] - 1, m.buffer.cursors()[i]),
    ));
}

} // verus!
