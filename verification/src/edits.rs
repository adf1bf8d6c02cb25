//! What the edits of a buffer do.
//!
//! An edit works at several places of the text.  It goes through them from
//! the back to the front, one step per place, and each step changes the text
//! and then sets the selections right.

use crate::coord::{
    aligned, aligned_idx, backward_from, comes_before, coord_at, down_from, forward_by,
    lemma_aligned_idx_bounds, line_start_of, next_word, past_line_end, previous_word, up_from, Pos,
};
use crate::idx::clamped;
use crate::order::{back_to_front, lemma_back_to_front};
use crate::rope::{cut, joined, spliced};
use crate::selection::Span;
use vstd::prelude::*;

verus! {

/// What a buffer holds: its text, its selections, and which one of them is
/// the primary one.
#[verifier::ext_equal]
pub struct BufferModel {
    pub text: Seq<char>,
    pub spans: Seq<Span>,
    pub primary: int,
}

impl BufferModel {
    /// The positions of the cursors.
    pub open spec fn cursors(self) -> Seq<int> {
        Seq::new(self.spans.len(), |i: int| aligned_idx(self.text, self.spans[i].cursor))
    }

    /// Whether the lines and the columns of all selections are numbers that
    /// count something.
    pub open spec fn valid(self) -> bool {
        forall|i: int| 0 <= i < self.spans.len() ==> (#[trigger] self.spans[i]).valid()
    }

    /// The ranges of positions that are selected.
    pub open spec fn ranges(self) -> Seq<(int, int)> {
        Seq::new(
            self.spans.len(),
            |i: int| (self.spans[i].start(self.text), self.spans[i].end(self.text)),
        )
    }

    /// The texts that are selected.
    pub open spec fn selected(self) -> Seq<Seq<char>> {
        Seq::new(
            self.spans.len(),
            |i: int|
                self.text.subrange(self.spans[i].start(self.text), self.spans[i].end(self.text)),
        )
    }

    /// The buffer with every selection collapsed.
    pub open spec fn collapsed(self) -> BufferModel {
        BufferModel { spans: self.spans.map_values(|s: Span| s.collapsed()), ..self }
    }
}

/// A text that was just opened: one empty selection stands at its start.
pub open spec fn fresh(text: Seq<char>) -> BufferModel {
    BufferModel {
        text,
        spans: seq![
            Span { anchor: Pos { line: 0, column: 0 }, cursor: Pos { line: 0, column: 0 } },
        ],
        primary: 0,
    }
}

/// Whether some selection covers the char at `idx`.
pub open spec fn is_selected(m: BufferModel, idx: int) -> bool {
    exists|i: int| 0 <= i < m.spans.len() && #[trigger] m.spans[i].covers(m.text, idx)
}

/// The cursors lie in the text.
pub proof fn lemma_cursors(m: BufferModel)
    requires
        m.valid(),
    ensures
        m.cursors().len() == m.spans.len(),
        forall|i: int|
            0 <= i < m.cursors().len() ==> 0 <= #[trigger] m.cursors()[i] <= m.text.len(),
{
    assert forall|i: int| 0 <= i < m.cursors().len() implies 0 <= #[trigger] m.cursors()[i]
        <= m.text.len() by {
        assert(m.spans[i].valid());
        lemma_aligned_idx_bounds(m.text, m.spans[i].cursor);
    }
}

/// The text after `k` steps of an edit that puts a piece of text in at each
/// of the points: the first piece goes in at the last point.  A point for
/// which there is no piece is left alone.
pub open spec fn insertions(
    text: Seq<char>,
    points: Seq<int>,
    pieces: Seq<Seq<char>>,
    k: int,
) -> Seq<char>
    decreases k,
{
    if k <= 0 {
        text
    } else {
        let before = insertions(text, points, pieces, k - 1);
        if k <= pieces.len() {
            spliced(before, points[back_to_front(points)[k - 1]], pieces[k - 1])
        } else {
            before
        }
    }
}

/// Putting pieces in at positions of the text makes it longer by them.
pub proof fn lemma_insertions_len(
    text: Seq<char>,
    points: Seq<int>,
    pieces: Seq<Seq<char>>,
    k: int,
)
    requires
        0 <= k <= points.len(),
        forall|i: int| 0 <= i < points.len() ==> 0 <= #[trigger] points[i] <= text.len(),
    ensures
        insertions(text, points, pieces, k).len() >= text.len(),
        0 < k <= pieces.len() ==> insertions(text, points, pieces, k).len() == insertions(
            text,
            points,
            pieces,
            k - 1,
        ).len() + pieces[k - 1].len(),
    decreases k,
{
    if k > 0 {
        lemma_insertions_len(text, points, pieces, k - 1);
        lemma_back_to_front(points);
        assert(0 <= back_to_front(points)[k - 1] < points.len());
    }
}

/// The same char for each of `n` points.
pub open spec fn typed(ch: char, n: nat) -> Seq<Seq<char>> {
    Seq::new(n, |i: int| seq![ch])
}

/// The selections after `k` steps of typing a char: each step moves the
/// cursor that it typed at, and those of the steps before it, one char
/// forward in the text that it leaves, and collapses their selections.
pub open spec fn typed_spans(m: BufferModel, ch: char, k: int) -> Seq<Span>
    decreases k,
{
    if k <= 0 {
        m.spans
    } else {
        let before = typed_spans(m, ch, k - 1);
        let text = insertions(m.text, m.cursors(), typed(ch, m.spans.len()), k);
        let done = back_to_front(m.cursors()).take(k);
        Seq::new(
            m.spans.len(),
            |i: int|
                if done.contains(i) {
                    let cursor = forward_by(text, before[i].cursor, 1);
                    Span { anchor: cursor, cursor }
                } else {
                    before[i]
                },
        )
    }
}

/// Typing a char at every cursor.
pub open spec fn after_insert(m: BufferModel, ch: char) -> BufferModel {
    let n = m.spans.len();
    BufferModel {
        text: insertions(m.text, m.cursors(), typed(ch, n), n as int),
        spans: typed_spans(m, ch, n as int),
        ..m
    }
}

/// Pieces of text, each put in front of the ones before it.
pub open spec fn stacked(pieces: Seq<Seq<char>>) -> Seq<char>
    decreases pieces.len(),
{
    if pieces.len() == 0 {
        Seq::empty()
    } else {
        pieces.last() + stacked(pieces.drop_last())
    }
}

/// Stacked or joined, pieces are equally long.
pub proof fn lemma_stacked_len(pieces: Seq<Seq<char>>)
    ensures
        stacked(pieces).len() == joined(pieces).len(),
    decreases pieces.len(),
{
    if pieces.len() > 0 {
        lemma_stacked_len(pieces.drop_last());
    }
}

/// Where a selection goes when `n` chars were pasted at its cursor: it then
/// covers what was pasted, in its old direction.
pub open spec fn pasted_span(text: Seq<char>, s: Span, n: int) -> Span {
    let moved = forward_by(text, s.cursor, n);
    if aligned_idx(text, s.cursor) < aligned_idx(text, s.anchor) {
        Span { anchor: moved, ..s }
    } else {
        Span { anchor: s.cursor, cursor: moved }
    }
}

/// Where a selection goes when it is extended over `n` chars that were pasted
/// at its cursor: its greater end moves.
pub open spec fn extended_span(text: Seq<char>, s: Span, n: int) -> Span {
    if aligned_idx(text, s.cursor) < aligned_idx(text, s.anchor) {
        Span { anchor: forward_by(text, s.anchor, n), ..s }
    } else {
        Span { cursor: forward_by(text, s.cursor, n), ..s }
    }
}

/// Where an end of a selection goes when `n` chars were put in at `at`.
pub open spec fn pushed(text: Seq<char>, pos: Pos, at: int, n: int) -> Pos {
    if at <= aligned_idx(text, pos) {
        forward_by(text, pos, n)
    } else {
        pos
    }
}

/// The selections after `k` steps of a paste: each step sets the selection
/// that it pasted at, and pushes those of the steps before it.
pub open spec fn pasted_spans(
    m: BufferModel,
    pieces: Seq<Seq<char>>,
    extend: bool,
    k: int,
) -> Seq<Span>
    decreases k,
{
    if k <= 0 {
        m.spans
    } else {
        let before = pasted_spans(m, pieces, extend, k - 1);
        if k <= pieces.len() {
            let order = back_to_front(m.cursors());
            let text = insertions(m.text, m.cursors(), pieces, k);
            let at = m.cursors()[order[k - 1]];
            let n = pieces[k - 1].len() as int;
            Seq::new(
                m.spans.len(),
                |i: int|
                    if i == order[k - 1] {
                        if extend {
                            extended_span(text, before[i], n)
                        } else {
                            pasted_span(text, before[i], n)
                        }
                    } else if order.take(k - 1).contains(i) {
                        Span {
                            anchor: pushed(text, before[i].anchor, at, n),
                            cursor: pushed(text, before[i].cursor, at, n),
                        }
                    } else {
                        before[i]
                    },
            )
        } else {
            before
        }
    }
}

/// Pasting texts at the cursors, each given by the pieces that it is stored
/// in.  The pieces of a text go in at the same position one after the other,
/// so that the last one comes to stand first.
pub open spec fn after_paste(
    m: BufferModel,
    stored: Seq<Seq<Seq<char>>>,
    extend: bool,
) -> BufferModel {
    let pieces = stored.map_values(|s: Seq<Seq<char>>| stacked(s));
    let n = m.spans.len() as int;
    BufferModel {
        text: insertions(m.text, m.cursors(), pieces, n),
        spans: pasted_spans(m, pieces, extend, n),
        ..m
    }
}

/// Where the ranges start.
pub open spec fn starts(ranges: Seq<(int, int)>) -> Seq<int> {
    ranges.map_values(|r: (int, int)| r.0)
}

/// The text after `k` steps of an edit that takes ranges out.
pub open spec fn removals(text: Seq<char>, ranges: Seq<(int, int)>, k: int) -> Seq<char>
    decreases k,
{
    if k <= 0 {
        text
    } else {
        let r = ranges[back_to_front(starts(ranges))[k - 1]];
        cut(removals(text, ranges, k - 1), r.0, r.1)
    }
}

/// Whether each range lies in what the steps before it leave of the text.
pub open spec fn removable(text: Seq<char>, ranges: Seq<(int, int)>) -> bool {
    let order = back_to_front(starts(ranges));
    forall|k: int|
        0 <= k < ranges.len() ==> 0 <= ranges[#[trigger] order[k]].0 <= ranges[order[k]].1
            <= removals(text, ranges, k).len()
}

/// Where an end of a selection goes when `n` chars from `at` on are about to
/// be taken out: it moves back by `n` chars if it lies past `at`.
pub open spec fn pulled(text: Seq<char>, pos: Pos, at: int, n: int) -> Pos {
    let idx = aligned_idx(text, pos);
    if at < idx {
        coord_at(text, if idx > n { idx - n } else { 0 })
    } else {
        pos
    }
}

/// `pulled`, on both ends of a selection.
pub open spec fn pulled_span(text: Seq<char>, s: Span, at: int, n: int) -> Span {
    Span { anchor: pulled(text, s.anchor, at, n), cursor: pulled(text, s.cursor, at, n) }
}

/// Where a selection goes when its cursor lies at `at` or past it: to the
/// position `n` chars after the cursor, both ends.
pub open spec fn pushed_span(text: Seq<char>, s: Span, at: int, n: int) -> Span {
    let idx = aligned_idx(text, s.cursor);
    if at <= idx {
        let pos = coord_at(text, clamped(text, idx + n));
        Span { anchor: pos, cursor: pos }
    } else {
        s
    }
}

/// The selections after `k` steps of an edit that takes ranges out.  A step
/// pulls every selection back by the text as it was before the step.
pub open spec fn removed_spans(m: BufferModel, ranges: Seq<(int, int)>, k: int) -> Seq<Span>
    decreases k,
{
    if k <= 0 {
        m.spans
    } else {
        let r = ranges[back_to_front(starts(ranges))[k - 1]];
        let text = removals(m.text, ranges, k - 1);
        removed_spans(m, ranges, k - 1).map_values(
            |s: Span| pulled_span(text, s, r.0, r.1 - r.0),
        )
    }
}

/// Taking ranges out of the text.
pub open spec fn after_remove(m: BufferModel, ranges: Seq<(int, int)>) -> BufferModel {
    let n = ranges.len() as int;
    BufferModel {
        text: removals(m.text, ranges, n),
        spans: removed_spans(m, ranges, n),
        ..m
    }
}

/// Deleting what is selected, and leaving the cursors.
pub open spec fn after_delete(m: BufferModel) -> BufferModel {
    after_remove(m.collapsed(), m.ranges())
}

/// The ranges of one char before each cursor.
pub open spec fn before_cursors(m: BufferModel) -> Seq<(int, int)> {
    m.cursors().map_values(|c: int| (c - 1, c))
}

/// Deleting the char before each cursor, and leaving the cursors.
pub open spec fn after_backspace(m: BufferModel) -> BufferModel {
    after_remove(m.collapsed(), before_cursors(m))
}

/// The ways in which a cursor moves by a char or by a line.
pub enum Motion {
    Backward,
    Forward,
    Down,
    Up,
}

/// Where a motion leads from `pos`.
pub open spec fn target(text: Seq<char>, motion: Motion, pos: Pos) -> Pos {
    match motion {
        Motion::Backward => backward_from(text, pos),
        Motion::Forward => forward_by(text, pos, 1),
        Motion::Down => down_from(text, pos),
        Motion::Up => up_from(pos),
    }
}

/// Moving every cursor.  The anchors stay where the cursors were.
pub open spec fn after_move(m: BufferModel, motion: Motion) -> BufferModel {
    BufferModel {
        spans: m.spans.map_values(
            |s: Span| Span { anchor: s.cursor, cursor: target(m.text, motion, s.cursor) },
        ),
        ..m
    }
}

/// Moving every cursor, and leaving the anchors alone.
pub open spec fn after_extend(m: BufferModel, motion: Motion) -> BufferModel {
    BufferModel {
        spans: m.spans.map_values(
            |s: Span| Span { cursor: target(m.text, motion, s.cursor), ..s },
        ),
        ..m
    }
}

/// The start of the next word, or of the one before.
pub open spec fn word_target(text: Seq<char>, forward: bool, pos: Pos) -> Pos {
    let idx = aligned_idx(text, pos);
    coord_at(text, if forward { next_word(text, idx) } else { previous_word(text, idx) })
}

/// Moving every cursor by a word.  The anchors stay where the cursors were.
pub open spec fn after_word(m: BufferModel, forward: bool) -> BufferModel {
    BufferModel {
        spans: m.spans.map_values(
            |s: Span|
                Span {
                    anchor: aligned(m.text, s.cursor),
                    cursor: word_target(m.text, forward, s.cursor),
                },
        ),
        ..m
    }
}

/// Moving every cursor by a word, and leaving the anchors alone.
pub open spec fn after_extend_word(m: BufferModel, forward: bool) -> BufferModel {
    BufferModel {
        spans: m.spans.map_values(
            |s: Span| Span { cursor: word_target(m.text, forward, s.cursor), ..s },
        ),
        ..m
    }
}

/// Selecting the lines of the cursors.
pub open spec fn after_line(m: BufferModel) -> BufferModel {
    BufferModel {
        spans: m.spans.map_values(
            |s: Span|
                Span {
                    anchor: line_start_of(m.text, s.cursor),
                    cursor: past_line_end(m.text, s.cursor),
                },
        ),
        ..m
    }
}

/// Where an anchor goes when the selection is extended by a line: to the
/// start of the line of the earlier end.
pub open spec fn line_anchor(text: Seq<char>, s: Span) -> Pos {
    let first = if comes_before(s.anchor, s.cursor) {
        s.anchor
    } else {
        s.cursor
    };
    if first.column == 0 {
        first
    } else {
        line_start_of(text, first)
    }
}

/// Extending every selection by a line.
pub open spec fn after_extend_line(m: BufferModel) -> BufferModel {
    BufferModel {
        spans: m.spans.map_values(
            |s: Span|
                Span { anchor: line_anchor(m.text, s), cursor: past_line_end(m.text, s.cursor) },
        ),
        ..m
    }
}

/// Swapping the anchor and the cursor of every selection.
pub open spec fn after_reverse(m: BufferModel) -> BufferModel {
    BufferModel { spans: m.spans.map_values(|s: Span| s.reversed()), ..m }
}

} // verus!
