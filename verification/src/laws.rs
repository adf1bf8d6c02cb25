//! What holds of the editor as a whole.

use crate::coord::{
    aligned, aligned_idx, aligned_line, backward_from, comes_before, coord_at, down_from,
    forward_by, is_space, lemma_aligned_idx_bounds, lemma_aligned_line, lemma_coord_at,
    line_start_of, next_word, past_line_end, previous_word, run_end, run_start, up_from, Pos,
};
use crate::edits::{
    after_backspace, after_delete, after_insert, after_line, after_paste, after_reverse,
    before_cursors, extended_span, insertions, lemma_cursors, pasted_span, pasted_spans,
    removable, removals, removed_spans, stacked, starts, typed_spans, BufferModel,
};
use crate::lines::{
    ends_line, is_line_break, last_line, lemma_line_bounds, lemma_line_of_bounds,
    lemma_line_of_monotonic, lemma_line_of_position, lemma_line_start, line_chars, line_of,
    line_start,
};
use crate::order::back_to_front;
use crate::rope::{cut, joined, spliced};
use crate::selection::Span;
use vstd::prelude::*;

verus! {

/// Of two coordinates on lines of the text, the one that comes first falls on
/// no later position.
pub proof fn law_alignment_keeps_order(text: Seq<char>, a: Pos, b: Pos)
    requires
        a.valid(),
        b.valid(),
        comes_before(a, b),
        b.line <= last_line(text),
    ensures
        aligned_idx(text, a) <= aligned_idx(text, b),
{
    let la = aligned_line(text, a);
    let lb = aligned_line(text, b);
    lemma_aligned_idx_bounds(text, a);
    lemma_aligned_idx_bounds(text, b);
    lemma_aligned_line(text, a);
    lemma_aligned_line(text, b);
    if la < lb && aligned_idx(text, a) > aligned_idx(text, b) {
        lemma_line_of_monotonic(text, aligned_idx(text, b), aligned_idx(text, a));
    }
}

/// Going one char forward and then one char back leads to where it began,
/// except at the end of the text.
pub proof fn law_forward_backward(text: Seq<char>, pos: Pos)
    requires
        pos.valid(),
        aligned_idx(text, pos) < text.len(),
    ensures
        backward_from(text, forward_by(text, pos, 1)) == aligned(text, pos),
{
    lemma_aligned_idx_bounds(text, pos);
    lemma_coord_at(text, aligned_idx(text, pos) + 1);
}

/// Going one char back and then one char forward leads to where it began,
/// except at the start of the text.
pub proof fn law_backward_forward(text: Seq<char>, pos: Pos)
    requires
        pos.valid(),
        aligned_idx(text, pos) > 0,
    ensures
        forward_by(text, backward_from(text, pos), 1) == aligned(text, pos),
{
    lemma_aligned_idx_bounds(text, pos);
    lemma_coord_at(text, aligned_idx(text, pos) - 1);
}

/// Where a run of spaces or of other chars ends.
pub proof fn lemma_run_end(text: Seq<char>, idx: int, space: bool)
    requires
        0 <= idx <= text.len(),
    ensures
        idx <= run_end(text, idx, space) <= text.len(),
        run_end(text, idx, space) < text.len() ==> is_space(
            text[run_end(text, idx, space)],
        ) != space,
        forall|i: int|
            idx <= i < run_end(text, idx, space) ==> is_space(#[trigger] text[i])
                == space,
    decreases text.len() - idx,
{
    if idx < text.len() && is_space(text[idx]) == space {
        lemma_run_end(text, idx + 1, space);
    }
}

/// Where a run of spaces or of other chars begins.
pub proof fn lemma_run_start(text: Seq<char>, idx: int, space: bool)
    requires
        0 <= idx <= text.len(),
    ensures
        0 <= run_start(text, idx, space) <= idx,
        run_start(text, idx, space) > 0 ==> is_space(
            text[run_start(text, idx, space) - 1],
        ) != space,
        forall|i: int|
            run_start(text, idx, space) <= i < idx ==> is_space(#[trigger] text[i])
                == space,
    decreases idx,
{
    if idx > 0 && is_space(text[idx - 1]) == space {
        lemma_run_start(text, idx - 1, space);
    }
}

/// The start of the next word lies further on, and is the start of a word, or
/// the end of the text.
pub proof fn law_next_word(text: Seq<char>, idx: int)
    requires
        0 <= idx <= text.len(),
    ensures
        idx <= next_word(text, idx) <= text.len(),
        idx < text.len() ==> idx < next_word(text, idx),
        next_word(text, idx) < text.len() ==> !is_space(text[next_word(text, idx)]) && is_space(
            text[next_word(text, idx) - 1],
        ),
{
    let end = run_end(text, idx, false);
    lemma_run_end(text, idx, false);
    lemma_run_end(text, end, true);
    if next_word(text, idx) < text.len() {
        assert(is_space(text[next_word(text, idx) - 1]) == true);
    }
}

/// The start of the word before lies further back, and is the start of a word,
/// or of the text.
pub proof fn law_previous_word(text: Seq<char>, idx: int)
    requires
        0 <= idx <= text.len(),
    ensures
        0 <= previous_word(text, idx) <= idx,
        idx > 0 ==> previous_word(text, idx) < idx,
        previous_word(text, idx) > 0 ==> !is_space(text[previous_word(text, idx)]) && is_space(
            text[previous_word(text, idx) - 1],
        ),
{
    let start = run_start(text, idx, true);
    lemma_run_start(text, idx, true);
    lemma_run_start(text, start, false);
    if previous_word(text, idx) > 0 {
        assert(is_space(text[previous_word(text, idx)]) == false);
    }
}

/// Going one line down and then one line up leads to where it began, except on
/// the last line.
pub proof fn law_down_up(text: Seq<char>, pos: Pos)
    requires
        pos.valid(),
        pos.line < last_line(text),
    ensures
        up_from(down_from(text, pos)) == pos,
{
}

/// Going one line up and then one line down leads to where it began, except on
/// the first line.
pub proof fn law_up_down(text: Seq<char>, pos: Pos)
    requires
        pos.line > 0,
        pos.line <= last_line(text),
    ensures
        down_from(text, up_from(pos)) == pos,
{
}

/// A selection covers the same chars in either direction, and reversing it
/// twice changes nothing.
pub proof fn law_reversed(text: Seq<char>, s: Span, idx: int)
    ensures
        s.reversed().covers(text, idx) == s.covers(text, idx),
        s.reversed().reversed() == s,
{
}

/// A collapsed selection covers no char, and collapsing it again changes
/// nothing.
pub proof fn law_collapsed(text: Seq<char>, s: Span, idx: int)
    ensures
        !s.collapsed().covers(text, idx),
        s.collapsed().collapsed() == s.collapsed(),
{
}

/// A selection lies in the text, and starts at or before where it stops.
pub proof fn law_selection_in_text(text: Seq<char>, s: Span)
    requires
        s.valid(),
    ensures
        0 <= s.start(text) <= s.end(text) <= text.len(),
{
    lemma_aligned_idx_bounds(text, s.anchor);
    lemma_aligned_idx_bounds(text, s.cursor);
}

/// Reversing all selections twice changes nothing.
pub proof fn law_reverse_twice(m: BufferModel)
    ensures
        after_reverse(after_reverse(m)) == m,
{
    assert(after_reverse(after_reverse(m)) =~= m);
}

/// Selecting lines selects the whole lines of the cursors.
pub proof fn law_line_selected(m: BufferModel)
    requires
        m.valid(),
    ensures
        after_line(m).selected() == Seq::new(
            m.spans.len(),
            |i: int| line_chars(m.text, aligned_line(m.text, m.spans[i].cursor)),
        ),
{
    let res = after_line(m);
    assert forall|i: int| 0 <= i < m.spans.len() implies #[trigger] res.selected()[i]
        == line_chars(m.text, aligned_line(m.text, m.spans[i].cursor)) by {
        assert(m.spans[i].valid());
        let pos = m.spans[i].cursor;
        let line = aligned_line(m.text, pos);
        lemma_aligned_idx_bounds(m.text, pos);
        lemma_line_bounds(m.text, line);
        lemma_coord_at(m.text, line_start(m.text, line + 1));
        assert(aligned_idx(m.text, line_start_of(m.text, pos)) == line_start(m.text, line));
        assert(aligned_idx(m.text, past_line_end(m.text, pos)) == line_start(m.text, line + 1));
    }
    assert(res.selected() =~= Seq::new(
        m.spans.len(),
        |i: int| line_chars(m.text, aligned_line(m.text, m.spans[i].cursor)),
    ));
}

/// Whether a line ends before the position `at` in both texts, or in neither.
///
/// Where the texts agree before `at`, this fails only if `at` lies in the
/// middle of a CRLF in one of them.
pub open spec fn same_seam(a: Seq<char>, b: Seq<char>, at: int) -> bool {
    at > 0 ==> ends_line(a, at - 1) == ends_line(b, at - 1)
}

/// Texts that agree up to a position put what comes before it on the same lines.
pub proof fn lemma_same_lines(a: Seq<char>, b: Seq<char>, at: int, j: int)
    requires
        0 <= j <= at <= a.len(),
        at <= b.len(),
        a.take(at) == b.take(at),
        same_seam(a, b, at),
    ensures
        line_of(a, j) == line_of(b, j),
    decreases j,
{
    if j > 0 {
        lemma_same_lines(a, b, at, j - 1);
        assert(a[j - 1] == a.take(at)[j - 1] == b.take(at)[j - 1] == b[j - 1]);
        if j < at {
            assert(a[j] == a.take(at)[j] == b.take(at)[j] == b[j]);
        }
        assert(ends_line(a, j - 1) == ends_line(b, j - 1));
    }
}

/// Texts that agree up to a position give it the same coordinate.
pub proof fn lemma_same_coord(a: Seq<char>, b: Seq<char>, at: int)
    requires
        0 <= at <= a.len(),
        at <= b.len(),
        a.take(at) == b.take(at),
        same_seam(a, b, at),
    ensures
        coord_at(a, at) == coord_at(b, at),
{
    lemma_same_lines(a, b, at, at);
    let line = line_of(a, at);
    lemma_line_of_position(a, at);
    lemma_line_of_position(b, at);
    lemma_line_of_bounds(a, at);
    lemma_line_of_bounds(b, at);
    lemma_line_start(a, line);
    lemma_line_start(b, line);
    let sa = line_start(a, line);
    let sb = line_start(b, line);
    lemma_same_lines(a, b, at, sa);
    lemma_same_lines(a, b, at, sb);
    if sa < sb {
        assert(line_of(b, sa) < line);
    }
    if sb < sa {
        assert(line_of(a, sb) < line);
    }
}

/// One place is its own order.
pub proof fn lemma_one_place(key: int)
    ensures
        back_to_front(seq![key]) == seq![0int],
{
    reveal_with_fuel(back_to_front, 2);
    assert(seq![key].drop_last() =~= Seq::empty());
    assert(back_to_front(seq![key]) =~= seq![0int]);
}

/// Typing with one cursor puts the char in at the cursor.
pub proof fn law_typed_text(m: BufferModel, ch: char)
    requires
        m.valid(),
        m.spans.len() == 1,
    ensures
        after_insert(m, ch).text == spliced(m.text, m.cursors()[0], seq![ch]),
{
    assert(m.cursors() =~= seq![m.cursors()[0]]);
    lemma_one_place(m.cursors()[0]);
    reveal_with_fuel(insertions, 2);
}

/// Typing with one cursor leaves the cursor right after the char, with
/// nothing selected.
///
/// The cursor is one that lies in the text, and the char makes or breaks no
/// CRLF with the char before the cursor.
pub proof fn law_typed_cursor(m: BufferModel, ch: char)
    requires
        m.valid(),
        m.spans.len() == 1,
        m.spans[0].cursor == aligned(m.text, m.spans[0].cursor),
        same_seam(m.text, after_insert(m, ch).text, m.cursors()[0]),
    ensures
        after_insert(m, ch).spans == ({
            let cursor = coord_at(after_insert(m, ch).text, m.cursors()[0] + 1);
            seq![Span { anchor: cursor, cursor }]
        }),
        after_insert(m, ch).cursors() == seq![m.cursors()[0] + 1],
{
    let at = m.cursors()[0];
    let new = after_insert(m, ch);
    let text = new.text;
    lemma_cursors(m);
    law_typed_text(m, ch);
    assert(m.cursors() =~= seq![at]);
    lemma_one_place(at);
    assert(text.take(at) =~= m.text.take(at));
    lemma_same_coord(m.text, text, at);
    lemma_coord_at(text, at);
    lemma_coord_at(text, at + 1);
    let order = back_to_front(m.cursors());
    assert(order.take(1)[0] == 0);
    assert(order.take(1).contains(0));
    reveal_with_fuel(typed_spans, 2);
    assert(new.spans =~= seq![
        Span { anchor: coord_at(text, at + 1), cursor: coord_at(text, at + 1) },
    ]);
    assert(new.cursors() =~= seq![at + 1]);
}

/// Typing with one cursor that falls on the end of the text, wherever it
/// stands, leaves it at the end of the text.
pub proof fn law_typed_at_end(m: BufferModel, ch: char)
    requires
        m.valid(),
        m.spans.len() == 1,
        m.cursors()[0] == m.text.len(),
    ensures
        after_insert(m, ch).text == m.text.push(ch),
        after_insert(m, ch).spans == ({
            let cursor = coord_at(after_insert(m, ch).text, m.text.len() as int + 1);
            seq![Span { anchor: cursor, cursor }]
        }),
        after_insert(m, ch).cursors() == seq![m.text.len() as int + 1],
{
    let len = m.text.len() as int;
    let new = after_insert(m, ch);
    let text = new.text;
    let pos = m.spans[0].cursor;
    law_typed_text(m, ch);
    assert(text =~= m.text.push(ch));
    assert(m.spans[0].valid());
    lemma_end_kept(m.text, ch, pos);
    lemma_aligned_idx_bounds(text, pos);
    assert(m.cursors() =~= seq![len]);
    lemma_one_place(len);
    let order = back_to_front(m.cursors());
    assert(order.take(1)[0] == 0);
    assert(order.take(1).contains(0));
    reveal_with_fuel(typed_spans, 2);
    assert(new.spans =~= seq![
        Span { anchor: coord_at(text, len + 1), cursor: coord_at(text, len + 1) },
    ]);
    lemma_coord_at(text, len + 1);
    assert(new.cursors() =~= seq![len + 1]);
}

/// A coordinate that falls on the end of a text falls on no earlier position
/// once a char is put behind it.
proof fn lemma_end_kept(text: Seq<char>, ch: char, pos: Pos)
    requires
        pos.valid(),
        aligned_idx(text, pos) == text.len(),
    ensures
        aligned_idx(text.push(ch), pos) >= text.len(),
{
    let len = text.len() as int;
    let new = text.push(ch);
    let last = last_line(text);
    lemma_aligned_idx_bounds(text, pos);
    lemma_aligned_line(text, pos);
    lemma_aligned_idx_bounds(new, pos);
    lemma_aligned_line(new, pos);
    let line = aligned_line(new, pos);
    lemma_line_start(new, line);
    if aligned_idx(new, pos) < len {
        let idx = aligned_idx(new, pos);
        lemma_line_of_monotonic(new, idx, len);
        if same_seam(text, new, len) {
            assert(text.take(len) =~= new.take(len));
            lemma_same_lines(text, new, len, len);
            lemma_same_coord(text, new, len);
            lemma_line_start(new, line + 1);
            if line_start(new, line + 1) <= len {
                lemma_line_of_monotonic(new, line_start(new, line + 1), len);
            }
        } else {
            assert(text.take(len - 1) =~= new.take(len - 1));
            if len > 1 {
                assert(ends_line(text, len - 2) == ends_line(new, len - 2));
            }
            lemma_same_lines(text, new, len - 1, len - 1);
        }
    }
}

/// With one cursor, a backspace takes the char before the cursor out, and can
/// do so wherever there is one.
pub proof fn law_backspace_text(m: BufferModel)
    requires
        m.valid(),
        m.spans.len() == 1,
    ensures
        removable(m.text, before_cursors(m)) <==> m.cursors()[0] > 0,
        m.cursors()[0] > 0 ==> after_backspace(m).text == cut(
            m.text,
            m.cursors()[0] - 1,
            m.cursors()[0],
        ),
{
    let at = m.cursors()[0];
    let ranges = before_cursors(m);
    lemma_cursors(m);
    assert(m.cursors() =~= seq![at]);
    assert(ranges =~= seq![(at - 1, at)]);
    assert(starts(ranges) =~= seq![at - 1]);
    lemma_one_place(at - 1);
    reveal_with_fuel(removals, 2);
    let order = back_to_front(starts(ranges));
    assert(ranges[order[0]] == (at - 1, at));
}

/// With one cursor, a backspace leaves the cursor at the coordinate where the
/// char was, with nothing selected, and there in the text too unless the
/// backspace makes or breaks a CRLF at that place.
pub proof fn law_backspace_cursor(m: BufferModel)
    requires
        m.valid(),
        m.spans.len() == 1,
        m.cursors()[0] > 0,
    ensures
        after_backspace(m).spans == ({
            let cursor = coord_at(m.text, m.cursors()[0] - 1);
            seq![Span { anchor: cursor, cursor }]
        }),
        same_seam(m.text, after_backspace(m).text, m.cursors()[0] - 1) ==> after_backspace(
            m,
        ).cursors() == seq![m.cursors()[0] - 1],
{
    let at = m.cursors()[0];
    let new = after_backspace(m);
    lemma_cursors(m);
    law_backspace_text(m);
    let ranges = before_cursors(m);
    assert(ranges =~= seq![(at - 1, at)]);
    assert(starts(ranges) =~= seq![at - 1]);
    lemma_one_place(at - 1);
    lemma_coord_at(m.text, at - 1);
    reveal_with_fuel(removed_spans, 2);
    reveal_with_fuel(removals, 2);
    let cursor = coord_at(m.text, at - 1);
    assert(new.spans =~= seq![Span { anchor: cursor, cursor }]);
    assert(new.text.take(at - 1) =~= m.text.take(at - 1));
    if same_seam(m.text, new.text, at - 1) {
        lemma_same_coord(m.text, new.text, at - 1);
        lemma_coord_at(new.text, at - 1);
        assert(new.cursors() =~= seq![at - 1]);
    }
}

/// With one cursor, a backspace undoes what was typed: the text and the
/// cursor are the same again, and nothing is selected.
pub proof fn law_backspace_undoes_typing(m: BufferModel, ch: char)
    requires
        m.valid(),
        m.spans.len() == 1,
        m.spans[0].cursor == aligned(m.text, m.spans[0].cursor),
        same_seam(m.text, after_insert(m, ch).text, m.cursors()[0]),
    ensures
        after_backspace(after_insert(m, ch)) == m.collapsed(),
{
    let at = m.cursors()[0];
    let new = after_insert(m, ch);
    lemma_cursors(m);
    law_typed_text(m, ch);
    law_typed_cursor(m, ch);
    assert(new.text.take(at) =~= m.text.take(at));
    lemma_same_coord(m.text, new.text, at);
    lemma_coord_at(new.text, at + 1);
    lemma_coord_at(new.text, at);
    assert(new.valid()) by {
        assert(new.spans[0].valid());
    }
    law_backspace_text(new);
    assert(cut(new.text, at, at + 1) =~= m.text);
    let ranges = before_cursors(new);
    assert(ranges =~= seq![(at, at + 1)]);
    assert(starts(ranges) =~= seq![at]);
    lemma_one_place(at);
    reveal_with_fuel(removed_spans, 2);
    reveal_with_fuel(removals, 2);
    assert(after_backspace(new).spans =~= m.collapsed().spans);
    assert(after_backspace(new) =~= m.collapsed());
}

/// With one selection, deleting it takes just what is selected out, and can
/// always be done.
pub proof fn law_deleted_text(m: BufferModel)
    requires
        m.valid(),
        m.spans.len() == 1,
    ensures
        removable(m.text, m.ranges()),
        after_delete(m).text == cut(
            m.text,
            m.spans[0].start(m.text),
            m.spans[0].end(m.text),
        ),
{
    let s = m.spans[0];
    assert(s.valid());
    law_selection_in_text(m.text, s);
    let range = (s.start(m.text), s.end(m.text));
    assert(m.ranges() =~= seq![range]);
    assert(starts(m.ranges()) =~= seq![range.0]);
    lemma_one_place(range.0);
    reveal_with_fuel(removals, 2);
    let order = back_to_front(starts(m.ranges()));
    assert(m.ranges()[order[0]] == range);
}

/// With one selection, deleting it leaves the cursor at the coordinate where
/// the selection started, and there in the text too unless the deletion makes
/// or breaks a CRLF at that place.
///
/// The cursor is the greater end or lies in the text.
pub proof fn law_deleted_cursor(m: BufferModel)
    requires
        m.valid(),
        m.spans.len() == 1,
        m.spans[0].start(m.text) < m.cursors()[0] || m.spans[0].cursor == aligned(
            m.text,
            m.spans[0].cursor,
        ),
    ensures
        after_delete(m).spans == ({
            let cursor = coord_at(m.text, m.spans[0].start(m.text));
            seq![Span { anchor: cursor, cursor }]
        }),
        same_seam(m.text, after_delete(m).text, m.spans[0].start(m.text)) ==> after_delete(
            m,
        ).cursors() == seq![m.spans[0].start(m.text)],
{
    let s = m.spans[0];
    assert(s.valid());
    law_selection_in_text(m.text, s);
    law_deleted_text(m);
    let (start, end) = (s.start(m.text), s.end(m.text));
    let new = after_delete(m);
    assert(m.ranges() =~= seq![(start, end)]);
    assert(starts(m.ranges()) =~= seq![start]);
    lemma_one_place(start);
    lemma_aligned_idx_bounds(m.text, s.cursor);
    lemma_coord_at(m.text, start);
    reveal_with_fuel(removed_spans, 2);
    reveal_with_fuel(removals, 2);
    let cursor = coord_at(m.text, start);
    assert(new.spans =~= seq![Span { anchor: cursor, cursor }]);
    assert(new.text.take(start) =~= m.text.take(start));
    if same_seam(m.text, new.text, start) {
        lemma_same_coord(m.text, new.text, start);
        lemma_coord_at(new.text, start);
        assert(new.cursors() =~= seq![start]);
    }
}

/// Where nothing is selected, deleting does nothing but collapse the
/// selection.
pub proof fn law_delete_nothing(m: BufferModel)
    requires
        m.valid(),
        m.spans.len() == 1,
        m.spans[0].start(m.text) == m.spans[0].end(m.text),
    ensures
        after_delete(m) == m.collapsed(),
{
    let s = m.spans[0];
    let at = s.start(m.text);
    law_deleted_text(m);
    assert(s.valid());
    law_selection_in_text(m.text, s);
    assert(m.ranges() =~= seq![(at, at)]);
    assert(starts(m.ranges()) =~= seq![at]);
    lemma_one_place(at);
    reveal_with_fuel(removed_spans, 2);
    reveal_with_fuel(removals, 2);
    assert(after_delete(m).text =~= m.text);
    assert(after_delete(m).spans =~= m.collapsed().spans);
}

/// A text that is stored in one piece reads the same in either order.
pub proof fn law_one_piece(pieces: Seq<Seq<char>>)
    requires
        pieces.len() <= 1,
    ensures
        stacked(pieces) == joined(pieces),
{
    if pieces.len() == 1 {
        reveal_with_fuel(stacked, 2);
        reveal_with_fuel(joined, 2);
        assert(pieces.drop_last() =~= Seq::empty());
        assert(stacked(pieces) =~= joined(pieces));
    }
}

/// With one selection, pasting puts the text in at the cursor.
///
/// The pieces of the text read the same in either order, as those of a text
/// that is stored in one piece do.
pub proof fn law_pasted_text(m: BufferModel, pieces: Seq<Seq<char>>, extend: bool)
    requires
        m.valid(),
        m.spans.len() == 1,
        stacked(pieces) == joined(pieces),
    ensures
        after_paste(m, seq![pieces], extend).text == spliced(
            m.text,
            m.cursors()[0],
            joined(pieces),
        ),
{
    let stored = seq![pieces];
    assert(stored.map_values(|s: Seq<Seq<char>>| stacked(s)) =~= seq![stacked(pieces)]);
    assert(m.cursors() =~= seq![m.cursors()[0]]);
    lemma_one_place(m.cursors()[0]);
    reveal_with_fuel(insertions, 2);
}

/// Where the one selection goes when a text is pasted at its cursor.
pub proof fn lemma_pasted_one(m: BufferModel, pieces: Seq<Seq<char>>, extend: bool)
    requires
        m.valid(),
        m.spans.len() == 1,
        stacked(pieces) == joined(pieces),
    ensures
        after_paste(m, seq![pieces], extend).spans == ({
            let text = after_paste(m, seq![pieces], extend).text;
            let n = joined(pieces).len() as int;
            seq![
                if extend {
                    extended_span(text, m.spans[0], n)
                } else {
                    pasted_span(text, m.spans[0], n)
                },
            ]
        }),
{
    let at = m.cursors()[0];
    let new = after_paste(m, seq![pieces], extend);
    let n = joined(pieces).len() as int;
    let stored = seq![pieces];
    assert(stored.map_values(|s: Seq<Seq<char>>| stacked(s)) =~= seq![stacked(pieces)]);
    assert(m.cursors() =~= seq![at]);
    lemma_one_place(at);
    reveal_with_fuel(pasted_spans, 2);
    reveal_with_fuel(insertions, 2);
    assert(new.spans =~= seq![
        if extend {
            extended_span(new.text, m.spans[0], n)
        } else {
            pasted_span(new.text, m.spans[0], n)
        },
    ]);
}

/// A position up to `at` keeps its coordinate in a text that agrees up to
/// there.
proof fn lemma_coord_kept(a: Seq<char>, b: Seq<char>, at: int, x: int)
    requires
        0 <= x <= at <= a.len(),
        at <= b.len(),
        a.take(at) == b.take(at),
        same_seam(a, b, at),
    ensures
        coord_at(b, x) == coord_at(a, x),
        aligned_idx(b, coord_at(a, x)) == x,
{
    if 0 < x < at {
        assert(a[x - 1] == a.take(at)[x - 1] == b.take(at)[x - 1] == b[x - 1]);
        assert(a[x] == a.take(at)[x] == b.take(at)[x] == b[x]);
    }
    assert(a.take(x) =~= a.take(at).take(x));
    assert(b.take(x) =~= b.take(at).take(x));
    lemma_same_coord(a, b, x);
    lemma_coord_at(b, x);
}

/// Pasting at the cursor of the one selection selects what was pasted, where
/// it was pasted, whatever was selected before.
///
/// The cursor is one that lies in the text, the pieces of what is pasted read
/// the same in either order, and it makes or breaks no CRLF with the char
/// before the cursor.
pub proof fn law_paste_selects(m: BufferModel, pieces: Seq<Seq<char>>)
    requires
        m.valid(),
        m.spans.len() == 1,
        stacked(pieces) == joined(pieces),
        m.spans[0].cursor == aligned(m.text, m.spans[0].cursor),
        same_seam(m.text, after_paste(m, seq![pieces], false).text, m.cursors()[0]),
    ensures
        after_paste(m, seq![pieces], false).ranges() == seq![
            (m.cursors()[0], m.cursors()[0] + joined(pieces).len()),
        ],
        after_paste(m, seq![pieces], false).selected() == seq![joined(pieces)],
{
    let at = m.cursors()[0];
    let new = after_paste(m, seq![pieces], false);
    let n = joined(pieces).len() as int;
    lemma_cursors(m);
    law_pasted_text(m, pieces, false);
    lemma_pasted_one(m, pieces, false);
    assert(new.text.take(at) =~= m.text.take(at));
    lemma_coord_kept(m.text, new.text, at, at);
    lemma_coord_at(new.text, at + n);
    assert(new.ranges() =~= seq![(at, at + n)]);
    assert(new.text.subrange(at, at + n) =~= joined(pieces));
    assert(new.selected() =~= seq![joined(pieces)]);
}

/// Between two positions on different lines a line ends.
proof fn lemma_line_ends_between(text: Seq<char>, x: int, y: int) -> (i: int)
    requires
        0 <= x <= y,
        line_of(text, x) < line_of(text, y),
    ensures
        x <= i < y,
        ends_line(text, i),
    decreases y,
{
    if ends_line(text, y - 1) {
        y - 1
    } else {
        lemma_line_ends_between(text, x, y - 1)
    }
}

/// Where a coordinate after the place of a paste falls: past that place, or on
/// it if it is on the same line and a line now ends right there.
proof fn lemma_anchor_after(text: Seq<char>, at: int, piece: Seq<char>, a: int)
    requires
        0 <= at < a <= text.len(),
        piece.len() > 0,
        same_seam(text, spliced(text, at, piece), at),
    ensures
        ({
            let new = spliced(text, at, piece);
            aligned_idx(new, coord_at(text, a)) > at <==> (line_of(text, at) < line_of(text, a)
                || !ends_line(new, at))
        }),
        aligned_idx(spliced(text, at, piece), coord_at(text, a)) >= at,
{
    let new = spliced(text, at, piece);
    let n = piece.len() as int;
    let line = line_of(text, at);
    let pos = coord_at(text, a);
    assert(text.take(at) =~= new.take(at));
    lemma_same_lines(text, new, at, at);
    lemma_same_coord(text, new, at);
    lemma_line_of_monotonic(text, at, a);
    lemma_coord_at(text, a);
    lemma_aligned_idx_bounds(new, pos);
    lemma_aligned_line(new, pos);
    lemma_line_of_bounds(new, at);
    let idx = aligned_idx(new, pos);
    if line < line_of(text, a) {
        let i = lemma_line_ends_between(text, at, a);
        assert(new[i + n] == text[i]);
        if i + 1 < text.len() {
            assert(new[i + n + 1] == text[i + 1]);
        }
        assert(ends_line(new, i + n));
        lemma_line_of_monotonic(new, at, i + n);
        lemma_line_of_monotonic(new, i + n + 1, new.len() as int);
        if idx <= at {
            lemma_line_of_monotonic(new, idx, at);
        }
    } else if ends_line(new, at) {
        lemma_line_of_bounds(new, at + 1);
        lemma_line_start(new, line + 1);
        if line_start(new, line + 1) <= at {
            lemma_line_of_monotonic(new, line_start(new, line + 1), at);
        }
    } else {
        lemma_line_of_position(new, at + 1);
    }
}

/// Whether the one selection of a buffer is still backward once a text was
/// pasted at its cursor: its anchor is on a later line than its cursor, or
/// what was pasted ends no line with its first char.
pub open spec fn stays_backward(m: BufferModel, text: Seq<char>) -> bool {
    let at = m.cursors()[0];
    let anchor = aligned_idx(m.text, m.spans[0].anchor);
    at < anchor && (line_of(m.text, at) < line_of(m.text, anchor) || !ends_line(text, at))
}

/// Pasting at the cursor of the one selection leaves a selection of what was
/// pasted that is backward if `stays_backward` says so, and forward otherwise.
/// So one that was not backward becomes forward, and where what is pasted has
/// no line break one that was backward stays so.
///
/// Both ends lie in the text, the pieces of what is pasted read the same in
/// either order, and it makes or breaks no CRLF with the char before the
/// cursor.
pub proof fn law_paste_direction(m: BufferModel, pieces: Seq<Seq<char>>)
    requires
        m.valid(),
        m.spans.len() == 1,
        stacked(pieces) == joined(pieces),
        m.spans[0].anchor == aligned(m.text, m.spans[0].anchor),
        m.spans[0].cursor == aligned(m.text, m.spans[0].cursor),
        same_seam(m.text, after_paste(m, seq![pieces], false).text, m.cursors()[0]),
    ensures
        ({
            let new = after_paste(m, seq![pieces], false);
            let at = m.cursors()[0];
            let low = coord_at(new.text, at);
            let high = coord_at(new.text, at + joined(pieces).len());
            let forward = seq![Span { anchor: low, cursor: high }];
            let backward = seq![Span { anchor: high, cursor: low }];
            &&& new.spans == if stays_backward(m, new.text) {
                backward
            } else {
                forward
            }
            &&& aligned_idx(m.text, m.spans[0].anchor) <= at ==> new.spans == forward
            &&& at < aligned_idx(m.text, m.spans[0].anchor) && (forall|i: int|
                0 <= i < joined(pieces).len() ==> !is_line_break(#[trigger] joined(pieces)[i]))
                ==> new.spans == backward
        }),
{
    let at = m.cursors()[0];
    let new = after_paste(m, seq![pieces], false);
    let piece = joined(pieces);
    let n = piece.len() as int;
    let anchor = aligned_idx(m.text, m.spans[0].anchor);
    assert(m.spans[0].valid());
    lemma_aligned_idx_bounds(m.text, m.spans[0].anchor);
    lemma_cursors(m);
    law_pasted_text(m, pieces, false);
    lemma_pasted_one(m, pieces, false);
    assert(new.text.take(at) =~= m.text.take(at));
    lemma_coord_kept(m.text, new.text, at, at);
    if n > 0 {
        assert(new.text[at] == piece[0]);
    }
    if anchor <= at {
        lemma_coord_kept(m.text, new.text, at, anchor);
    } else if n > 0 {
        lemma_anchor_after(m.text, at, piece, anchor);
    }
    let low = coord_at(new.text, at);
    let high = coord_at(new.text, at + n);
    let forward = seq![Span { anchor: low, cursor: high }];
    let backward = seq![Span { anchor: high, cursor: low }];
    if n == 0 {
        assert(forward =~= backward);
    }
    assert(new.spans =~= if stays_backward(m, new.text) {
        backward
    } else {
        forward
    });
}

/// Text without a line break that is pasted lies on the line of its place, and
/// shifts what comes after it.
proof fn lemma_lines_after_piece(text: Seq<char>, at: int, piece: Seq<char>, y: int)
    requires
        0 <= at <= y <= text.len(),
        forall|i: int| 0 <= i < piece.len() ==> !is_line_break(#[trigger] piece[i]),
        same_seam(text, spliced(text, at, piece), at),
    ensures
        line_of(spliced(text, at, piece), y + piece.len()) == line_of(text, y),
    decreases y,
{
    let new = spliced(text, at, piece);
    let n = piece.len() as int;
    if y == at {
        assert(text.take(at) =~= new.take(at));
        lemma_same_lines(text, new, at, at);
        lemma_line_of_monotonic(new, at, at + n);
        if line_of(new, at) < line_of(new, at + n) {
            let i = lemma_line_ends_between(new, at, at + n);
            assert(new[i] == piece[i - at]);
        }
    } else {
        lemma_lines_after_piece(text, at, piece, y - 1);
        assert(new[y - 1 + n] == text[y - 1]);
        if y < text.len() {
            assert(new[y + n] == text[y]);
        }
        assert(ends_line(new, y - 1 + n) == ends_line(text, y - 1));
    }
}

/// An anchor on the line of the cursor and after it stays where it is when text
/// without a line break is pasted at the cursor.
pub proof fn law_anchor_kept(m: BufferModel, pieces: Seq<Seq<char>>, extend: bool)
    requires
        m.valid(),
        m.spans.len() == 1,
        stacked(pieces) == joined(pieces),
        m.spans[0].anchor == aligned(m.text, m.spans[0].anchor),
        m.cursors()[0] <= aligned_idx(m.text, m.spans[0].anchor),
        line_of(m.text, m.cursors()[0]) == m.spans[0].anchor.line,
        forall|i: int|
            0 <= i < joined(pieces).len() ==> !is_line_break(#[trigger] joined(pieces)[i]),
        same_seam(m.text, after_paste(m, seq![pieces], extend).text, m.cursors()[0]),
    ensures
        aligned_idx(after_paste(m, seq![pieces], extend).text, m.spans[0].anchor) == aligned_idx(
            m.text,
            m.spans[0].anchor,
        ),
{
    let at = m.cursors()[0];
    let new = after_paste(m, seq![pieces], extend);
    let piece = joined(pieces);
    let anchor = aligned_idx(m.text, m.spans[0].anchor);
    assert(m.spans[0].valid());
    lemma_aligned_idx_bounds(m.text, m.spans[0].anchor);
    lemma_cursors(m);
    law_pasted_text(m, pieces, extend);
    assert(new.text.take(at) =~= m.text.take(at));
    lemma_same_coord(m.text, new.text, at);
    lemma_lines_after_piece(m.text, at, piece, anchor);
    lemma_line_of_position(new.text, anchor + piece.len());
    lemma_line_of_bounds(new.text, anchor + piece.len());
    lemma_coord_at(m.text, anchor);
}

/// Pasting at the cursor of the one selection and extending it leaves a
/// selection that is longer by what was pasted: behind what was selected if
/// the selection was not backward, in front of it if it was.
///
/// Both ends lie in the text, the pieces of what is pasted read the same in
/// either order, and it makes or breaks no CRLF with the char before the
/// cursor.  If the selection is backward, its anchor falls on the same position
/// as before.
pub proof fn law_paste_extends(m: BufferModel, pieces: Seq<Seq<char>>)
    requires
        m.valid(),
        m.spans.len() == 1,
        stacked(pieces) == joined(pieces),
        m.spans[0].anchor == aligned(m.text, m.spans[0].anchor),
        m.spans[0].cursor == aligned(m.text, m.spans[0].cursor),
        same_seam(m.text, after_paste(m, seq![pieces], true).text, m.cursors()[0]),
        m.cursors()[0] < aligned_idx(m.text, m.spans[0].anchor) ==> aligned_idx(
            after_paste(m, seq![pieces], true).text,
            m.spans[0].anchor,
        ) == aligned_idx(m.text, m.spans[0].anchor),
    ensures
        ({
            let new = after_paste(m, seq![pieces], true);
            let (start, end) = m.ranges()[0];
            &&& new.ranges() == seq![(start, end + joined(pieces).len())]
            &&& new.selected() == seq![
                if m.cursors()[0] < aligned_idx(m.text, m.spans[0].anchor) {
                    joined(pieces) + m.selected()[0]
                } else {
                    m.selected()[0] + joined(pieces)
                },
            ]
        }),
{
    let at = m.cursors()[0];
    let new = after_paste(m, seq![pieces], true);
    let piece = joined(pieces);
    let n = piece.len() as int;
    let anchor = aligned_idx(m.text, m.spans[0].anchor);
    assert(m.spans[0].valid());
    lemma_aligned_idx_bounds(m.text, m.spans[0].anchor);
    lemma_cursors(m);
    law_pasted_text(m, pieces, true);
    lemma_pasted_one(m, pieces, true);
    assert(new.text.take(at) =~= m.text.take(at));
    lemma_coord_kept(m.text, new.text, at, at);
    if anchor <= at {
        lemma_coord_kept(m.text, new.text, at, anchor);
        lemma_coord_at(new.text, at + n);
        assert(new.ranges() =~= seq![(anchor, at + n)]);
        assert(new.text.subrange(anchor, at + n) =~= m.text.subrange(anchor, at) + piece);
    } else {
        lemma_coord_at(new.text, anchor + n);
        assert(new.ranges() =~= seq![(at, anchor + n)]);
        assert(new.text.subrange(at, anchor + n) =~= piece + m.text.subrange(at, anchor));
    }
}

/// With one selection, pasting what was just deleted brings the text back,
/// and selects what was selected, where it was.  The cursor is then at the end
/// of the selection.
///
/// The cursor is the greater end or lies in the text, the pieces of what was
/// deleted read the same in either order, and the deletion makes or breaks no
/// CRLF where the selection started.
pub proof fn law_paste_undoes_delete(m: BufferModel, pieces: Seq<Seq<char>>, extend: bool)
    requires
        m.valid(),
        m.spans.len() == 1,
        stacked(pieces) == joined(pieces),
        joined(pieces) == m.selected()[0],
        m.spans[0].start(m.text) < m.cursors()[0] || m.spans[0].cursor == aligned(
            m.text,
            m.spans[0].cursor,
        ),
        same_seam(m.text, after_delete(m).text, m.spans[0].start(m.text)),
    ensures
        after_paste(after_delete(m), seq![pieces], extend).text == m.text,
        after_paste(after_delete(m), seq![pieces], extend).ranges() == m.ranges(),
        after_paste(after_delete(m), seq![pieces], extend).selected() == m.selected(),
        after_paste(after_delete(m), seq![pieces], extend).cursors() == seq![
            m.spans[0].end(m.text),
        ],
{
    let s = m.spans[0];
    assert(s.valid());
    law_selection_in_text(m.text, s);
    let (start, end) = (s.start(m.text), s.end(m.text));
    let left = after_delete(m);
    let back = after_paste(left, seq![pieces], extend);
    law_deleted_text(m);
    law_deleted_cursor(m);
    lemma_coord_at(m.text, start);
    assert(left.text.take(start) =~= m.text.take(start));
    lemma_coord_kept(m.text, left.text, start, start);
    assert(left.valid()) by {
        assert(left.spans[0].valid());
    }
    law_pasted_text(left, pieces, extend);
    assert(spliced(left.text, start, m.text.subrange(start, end)) =~= m.text);
    assert(back.text == m.text);
    lemma_pasted_one(left, pieces, extend);
    lemma_coord_at(m.text, end);
    let span = Span { anchor: coord_at(m.text, start), cursor: coord_at(m.text, end) };
    assert(back.spans[0] == span);
    assert(back.spans =~= seq![span]);
    assert(back.ranges() =~= seq![(start, end)]);
    assert(m.ranges() =~= seq![(start, end)]);
    assert(back.selected() =~= m.selected());
    assert(back.cursors() =~= seq![end]);
}

} // verus!
