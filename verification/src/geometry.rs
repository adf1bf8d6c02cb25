//! What positions, coordinates and selections are.

use crate::coord::{
    aligned, aligned_idx, aligned_line, backward_from, comes_before, coord_at, down_from,
    forward_by, is_space, lemma_aligned_idx_bounds, lemma_aligned_line, lemma_coord_at,
    line_start_of, next_word, past_line_end, previous_word, run_end, run_start, up_from, Pos,
};
use crate::edits::{fresh, is_selected, pulled_span, pushed_span, BufferModel};
use crate::idx::clamped;
use crate::laws::{lemma_run_end, lemma_run_start};
use crate::lines::{
    ends_line, last_line, lemma_line_bounds, lemma_line_of_bounds, lemma_line_of_monotonic,
    lemma_line_start, line_chars, line_of, line_start,
};
use crate::order::{back_to_front, edited_before, lemma_back_to_front};
use crate::selection::{Selection, Span};
use vstd::prelude::*;

verus! {

/// A line starts at the first position that lies on it: at the start of the
/// text, or right after a char that ends a line.
pub proof fn law_line_start(text: Seq<char>, line: int)
    requires
        0 <= line <= last_line(text),
    ensures
        0 <= line_start(text, line) <= text.len(),
        line_of(text, line_start(text, line)) == line,
        line_start(text, line) == 0 || ends_line(text, line_start(text, line) - 1),
        line_start(text, line) == 0 <==> line == 0,
        line_start(text, last_line(text) + 1) == text.len(),
{
    lemma_line_start(text, line);
    lemma_line_start(text, last_line(text) + 1);
    let start = line_start(text, line);
    if start > 0 {
        assert(line_of(text, start - 1) < line);
    }
}

/// The coordinate of a position is that of its line and of the chars before
/// it on the line, and no other coordinate of the text falls on it.
pub proof fn law_coordinate(text: Seq<char>, idx: int)
    requires
        0 <= idx <= text.len(),
    ensures
        coord_at(text, idx).line == line_of(text, idx),
        coord_at(text, idx).column == idx - line_start(text, line_of(text, idx)),
        coord_at(text, idx).valid(),
        aligned_idx(text, coord_at(text, idx)) == idx,
        aligned(text, coord_at(text, idx)) == coord_at(text, idx),
{
    lemma_coord_at(text, idx);
}

/// A coordinate falls on its own line, or on the last one, and there on its
/// own column, or else on the last position of the line.
pub proof fn law_alignment(text: Seq<char>, pos: Pos)
    requires
        pos.valid(),
    ensures
        0 <= aligned_idx(text, pos) <= text.len(),
        line_of(text, aligned_idx(text, pos)) == if pos.line <= last_line(text) {
            pos.line
        } else {
            last_line(text)
        },
        aligned(text, pos).line == line_of(text, aligned_idx(text, pos)),
        aligned(text, pos).column == aligned_idx(text, pos) - line_start(
            text,
            line_of(text, aligned_idx(text, pos)),
        ),
        0 <= aligned(text, pos).column <= pos.column,
        aligned(text, pos).column < pos.column ==> aligned_idx(text, pos) == text.len()
            || ends_line(text, aligned_idx(text, pos)),
{
    let idx = aligned_idx(text, pos);
    let line = aligned_line(text, pos);
    lemma_aligned_idx_bounds(text, pos);
    lemma_aligned_line(text, pos);
    if aligned(text, pos).column < pos.column && idx < text.len() {
        lemma_line_of_bounds(text, idx);
        lemma_line_start(text, line + 1);
        if line >= last_line(text) {
            assert(idx == text.len());
        }
    }
}

/// Going forward by chars leads that many positions further on, or to the end
/// of the text.
pub proof fn law_forward(text: Seq<char>, pos: Pos, n: int)
    requires
        pos.valid(),
        n >= 0,
    ensures
        forward_by(text, pos, n) == coord_at(
            text,
            if aligned_idx(text, pos) + n <= text.len() {
                aligned_idx(text, pos) + n
            } else {
                text.len() as int
            },
        ),
        aligned_idx(text, forward_by(text, pos, n)) == if aligned_idx(text, pos) + n
            <= text.len() {
            aligned_idx(text, pos) + n
        } else {
            text.len() as int
        },
{
    lemma_aligned_idx_bounds(text, pos);
    lemma_coord_at(
        text,
        if aligned_idx(text, pos) + n <= text.len() {
            aligned_idx(text, pos) + n
        } else {
            text.len() as int
        },
    );
}

/// Going back by a char leads to the position before, or stays at the start of
/// the text.
pub proof fn law_backward(text: Seq<char>, pos: Pos)
    requires
        pos.valid(),
    ensures
        aligned_idx(text, pos) > 0 ==> backward_from(text, pos) == coord_at(
            text,
            aligned_idx(text, pos) - 1,
        ),
        aligned_idx(text, pos) == 0 ==> backward_from(text, pos) == coord_at(text, 0),
        aligned_idx(text, backward_from(text, pos)) == if aligned_idx(text, pos) > 0 {
            aligned_idx(text, pos) - 1
        } else {
            0
        },
{
    lemma_aligned_idx_bounds(text, pos);
    lemma_coord_at(text, 0);
    if aligned_idx(text, pos) > 0 {
        lemma_coord_at(text, aligned_idx(text, pos) - 1);
    }
}

/// Going down or up by a line keeps the column, and stays on the last or the
/// first line.
pub proof fn law_down_and_up(text: Seq<char>, pos: Pos)
    requires
        pos.valid(),
    ensures
        down_from(text, pos).column == pos.column,
        down_from(text, pos).line == if pos.line < last_line(text) {
            pos.line + 1
        } else {
            pos.line
        },
        up_from(pos).column == pos.column,
        up_from(pos).line == if pos.line > 0 {
            pos.line - 1
        } else {
            0
        },
{
}

/// The bounds of the line that a coordinate falls on: from the start of the
/// line up to the start of the next one, or the end of the text.
pub proof fn law_line_bounds(text: Seq<char>, pos: Pos)
    requires
        pos.valid(),
    ensures
        line_start_of(text, pos).column == 0,
        line_start_of(text, pos).line == line_of(text, aligned_idx(text, pos)),
        aligned_idx(text, line_start_of(text, pos)) == line_start(
            text,
            line_of(text, aligned_idx(text, pos)),
        ),
        past_line_end(text, pos) == coord_at(
            text,
            line_start(text, line_of(text, aligned_idx(text, pos)) + 1),
        ),
        aligned_idx(text, past_line_end(text, pos)) == line_start(
            text,
            line_of(text, aligned_idx(text, pos)) + 1,
        ),
        line_start(text, line_of(text, aligned_idx(text, pos))) <= aligned_idx(text, pos)
            <= line_start(text, line_of(text, aligned_idx(text, pos)) + 1) <= text.len(),
{
    lemma_aligned_idx_bounds(text, pos);
    lemma_aligned_line(text, pos);
    let line = aligned_line(text, pos);
    lemma_line_bounds(text, line);
    lemma_line_start(text, line + 1);
    lemma_coord_at(text, line_start(text, line + 1));
    let next = line_start(text, line + 1);
    if next < aligned_idx(text, pos) {
        lemma_line_of_monotonic(text, next, aligned_idx(text, pos));
    }
}

/// Whether a word starts at `idx`: there is a char of a word, and none before
/// it.
pub open spec fn starts_word(text: Seq<char>, idx: int) -> bool {
    &&& 0 <= idx < text.len()
    &&& !is_space(text[idx])
    &&& idx == 0 || is_space(text[idx - 1])
}

/// The next word is the first one that starts further on, or else the end of
/// the text.
pub proof fn law_first_word_after(text: Seq<char>, idx: int)
    requires
        0 <= idx <= text.len(),
    ensures
        idx <= next_word(text, idx) <= text.len(),
        idx < text.len() ==> idx < next_word(text, idx),
        next_word(text, idx) < text.len() ==> starts_word(text, next_word(text, idx)),
        forall|i: int| idx < i < next_word(text, idx) ==> !#[trigger] starts_word(text, i),
{
    let end = run_end(text, idx, false);
    lemma_run_end(text, idx, false);
    lemma_run_end(text, end, true);
    let next = next_word(text, idx);
    if next < text.len() {
        assert(is_space(text[next - 1]) == true);
    }
    assert forall|i: int| idx < i < next implies !#[trigger] starts_word(text, i) by {
        if i < end {
            assert(is_space(text[i - 1]) == false);
        } else {
            assert(is_space(text[i]) == true);
        }
    }
}

/// The word before is the last one that starts further back, or else the start
/// of the text.
pub proof fn law_last_word_before(text: Seq<char>, idx: int)
    requires
        0 <= idx <= text.len(),
    ensures
        0 <= previous_word(text, idx) <= idx,
        idx > 0 ==> previous_word(text, idx) < idx,
        previous_word(text, idx) > 0 ==> starts_word(text, previous_word(text, idx)),
        forall|i: int| previous_word(text, idx) < i < idx ==> !#[trigger] starts_word(text, i),
{
    let start = run_start(text, idx, true);
    lemma_run_start(text, idx, true);
    lemma_run_start(text, start, false);
    let previous = previous_word(text, idx);
    if previous > 0 {
        assert(is_space(text[previous]) == false);
    }
    assert forall|i: int| previous < i < idx implies !#[trigger] starts_word(text, i) by {
        if i < start {
            assert(is_space(text[i - 1]) == false);
        } else {
            assert(is_space(text[i]) == true);
        }
    }
}

/// Of two coordinates one comes before the other, by line and then by column,
/// or they are the same.
pub proof fn law_comes_before(a: Pos, b: Pos)
    ensures
        a.line < b.line ==> comes_before(a, b),
        a.line == b.line ==> (comes_before(a, b) <==> a.column < b.column),
        a.line > b.line ==> !comes_before(a, b),
{
}

/// A selection starts at the smaller one of the positions that its ends fall
/// on, stops at the greater one, and covers what lies between.
pub proof fn law_selection_ends(text: Seq<char>, s: Span, idx: int)
    ensures
        s.start(text) <= s.end(text),
        s.start(text) <= aligned_idx(text, s.anchor) <= s.end(text),
        s.start(text) <= aligned_idx(text, s.cursor) <= s.end(text),
        s.start(text) == aligned_idx(text, s.anchor) || s.start(text) == aligned_idx(
            text,
            s.cursor,
        ),
        s.end(text) == aligned_idx(text, s.anchor) || s.end(text) == aligned_idx(text, s.cursor),
        s.covers(text, idx) <==> (s.start(text) <= idx && idx < s.end(text)),
        s.collapsed().anchor == s.cursor,
        s.collapsed().cursor == s.cursor,
        s.reversed().anchor == s.cursor,
        s.reversed().cursor == s.anchor,
{
}

/// The smaller and the greater end of a selection are its two ends.
pub proof fn law_low_and_high(s: Selection)
    ensures
        s.low() <= s.high(),
        s.low() == s.anchor.0 && s.high() == s.cursor.0 || s.low() == s.cursor.0 && s.high()
            == s.anchor.0,
{
}

/// A char is selected if it lies between the ends of some selection, and what
/// is selected are the chars between the ends.
pub proof fn law_selected(m: BufferModel, idx: int)
    requires
        m.valid(),
    ensures
        is_selected(m, idx) <==> exists|i: int|
            #![trigger m.spans[i]]
            0 <= i < m.spans.len() && (aligned_idx(m.text, m.spans[i].anchor) <= idx
                < aligned_idx(m.text, m.spans[i].cursor) || aligned_idx(
                m.text,
                m.spans[i].cursor,
            ) <= idx < aligned_idx(m.text, m.spans[i].anchor)),
        m.cursors().len() == m.spans.len(),
        m.ranges().len() == m.spans.len(),
        m.selected().len() == m.spans.len(),
        forall|i: int|
            #![trigger m.spans[i]]
            0 <= i < m.spans.len() ==> {
                let anchor = aligned_idx(m.text, m.spans[i].anchor);
                let cursor = aligned_idx(m.text, m.spans[i].cursor);
                let range = if anchor < cursor {
                    (anchor, cursor)
                } else {
                    (cursor, anchor)
                };
                &&& m.cursors()[i] == cursor
                &&& m.ranges()[i] == range
                &&& m.selected()[i] == m.text.subrange(range.0, range.1)
            },
{
    if is_selected(m, idx) {
        let i = choose|i: int| 0 <= i < m.spans.len() && #[trigger] m.spans[i].covers(m.text, idx);
        assert(m.spans[i].covers(m.text, idx));
    }
    if exists|i: int|
        #![trigger m.spans[i]]
        0 <= i < m.spans.len() && (aligned_idx(m.text, m.spans[i].anchor) <= idx < aligned_idx(
            m.text,
            m.spans[i].cursor,
        ) || aligned_idx(m.text, m.spans[i].cursor) <= idx < aligned_idx(
            m.text,
            m.spans[i].anchor,
        )) {
        let i = choose|i: int|
            #![trigger m.spans[i]]
            0 <= i < m.spans.len() && (aligned_idx(m.text, m.spans[i].anchor) <= idx
                < aligned_idx(m.text, m.spans[i].cursor) || aligned_idx(
                m.text,
                m.spans[i].cursor,
            ) <= idx < aligned_idx(m.text, m.spans[i].anchor));
        assert(m.spans[i].covers(m.text, idx));
    }
}

/// A text that was just opened has one selection: an empty one at its start.
pub proof fn law_fresh(text: Seq<char>, idx: int)
    ensures
        fresh(text).text == text,
        fresh(text).primary == 0,
        fresh(text).spans.len() == 1,
        fresh(text).spans[0].anchor == (Pos { line: 0, column: 0 }),
        fresh(text).spans[0].cursor == (Pos { line: 0, column: 0 }),
        fresh(text).cursors() == seq![0int],
        !is_selected(fresh(text), idx),
{
    let m = fresh(text);
    lemma_line_of_bounds(text, text.len() as int);
    lemma_line_bounds(text, 0);
    assert(m.cursors() =~= seq![0int]);
}

/// Places are edited in descending order of their keys, the later one of two
/// with equal keys first, and each of them once.
pub proof fn law_edit_order(keys: Seq<int>)
    ensures
        back_to_front(keys).len() == keys.len(),
        forall|p: int| 0 <= p < keys.len() ==> #[trigger] back_to_front(keys).contains(p),
        forall|i: int|
            0 <= i < keys.len() ==> 0 <= #[trigger] back_to_front(keys)[i] < keys.len(),
        forall|i: int, j: int|
            0 <= i < j < keys.len() ==> {
                let a = #[trigger] back_to_front(keys)[i];
                let b = #[trigger] back_to_front(keys)[j];
                keys[a] > keys[b] || (keys[a] == keys[b] && a > b)
            },
{
    let order = back_to_front(keys);
    lemma_back_to_front(keys);
    assert forall|i: int, j: int| 0 <= i < j < keys.len() implies {
        let a = #[trigger] order[i];
        let b = #[trigger] order[j];
        keys[a] > keys[b] || (keys[a] == keys[b] && a > b)
    } by {
        assert(edited_before(keys, order[i], order[j]));
    }
}

/// Pulling a selection back moves each end that lies past `at` back by `n`
/// chars, or to the start of the text, and leaves the others alone.
pub proof fn law_pulled(text: Seq<char>, s: Span, at: int, n: int)
    requires
        s.valid(),
        n >= 0,
    ensures
        aligned_idx(text, s.anchor) <= at ==> pulled_span(text, s, at, n).anchor == s.anchor,
        aligned_idx(text, s.cursor) <= at ==> pulled_span(text, s, at, n).cursor == s.cursor,
        aligned_idx(text, s.anchor) > at ==> pulled_span(text, s, at, n).anchor == coord_at(
            text,
            not_below_zero(aligned_idx(text, s.anchor) - n),
        ),
        aligned_idx(text, s.cursor) > at ==> pulled_span(text, s, at, n).cursor == coord_at(
            text,
            not_below_zero(aligned_idx(text, s.cursor) - n),
        ),
{
}

/// A number, or zero if it is less.
pub open spec fn not_below_zero(n: int) -> int {
    if n >= 0 {
        n
    } else {
        0
    }
}

/// Pushing a selection forward takes both ends to `n` chars after the cursor,
/// or to the end of the text, if the cursor lies at `at` or past it, and leaves
/// the selection alone if not.
pub proof fn law_pushed(text: Seq<char>, s: Span, at: int, n: int)
    requires
        s.valid(),
        n >= 0,
    ensures
        aligned_idx(text, s.cursor) < at ==> pushed_span(text, s, at, n) == s,
        aligned_idx(text, s.cursor) >= at ==> {
            let to = aligned_idx(text, s.cursor) + n;
            let pos = coord_at(
                text,
                if to < text.len() {
                    to
                } else {
                    text.len() as int
                },
            );
            pushed_span(text, s, at, n) == Span { anchor: pos, cursor: pos }
        },
{
}

/// An index stands for the position with that number, or for the end of the
/// text.
pub proof fn law_clamped(text: Seq<char>, idx: int)
    ensures
        idx <= text.len() ==> clamped(text, idx) == idx,
        idx >= text.len() ==> clamped(text, idx) == text.len(),
{
}

/// The chars of a line are those from its start up to the start of the next
/// one, and all of them lie on it.
pub proof fn law_line_chars(text: Seq<char>, line: int, idx: int)
    requires
        0 <= line <= last_line(text),
    ensures
        line_chars(text, line) == text.subrange(
            line_start(text, line),
            line_start(text, line + 1),
        ),
        line_start(text, line) <= idx < line_start(text, line + 1) ==> line_of(text, idx) == line,
        0 <= idx < text.len() && line_of(text, idx) == line ==> line_start(text, line) <= idx
            < line_start(text, line + 1),
{
    lemma_line_bounds(text, line);
    lemma_line_start(text, line);
    lemma_line_start(text, line + 1);
    if line_start(text, line) <= idx < line_start(text, line + 1) {
        lemma_line_of_monotonic(text, line_start(text, line), idx);
        assert(line_of(text, idx) < line + 1);
    }
    if 0 <= idx < text.len() && line_of(text, idx) == line && idx >= line_start(
        text,
        line + 1,
    ) {
        lemma_line_of_monotonic(text, line_start(text, line + 1), idx);
        if line + 1 > last_line(text) {
            lemma_line_of_bounds(text, idx);
        }
    }
}

} // verus!
