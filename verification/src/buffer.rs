//! A text that is edited at several selections at once.

use crate::coord::{
    aligned, aligned_idx, earlier, forward_by, lemma_aligned_idx_bounds, lemma_aligned_is_aligned,
    line_start_of, past_line_end, Coord, CoordUnaligned,
};
use crate::edits::{
    after_backspace, after_delete, after_extend_line, after_insert, after_line, after_move,
    after_paste, after_remove, after_reverse, after_word, before_cursors, extended_span, fresh,
    insertions, is_selected, lemma_cursors, lemma_insertions_len, lemma_stacked_len, line_anchor,
    pasted_span, pasted_spans, pulled_span, pushed, pushed_span, removable, removals,
    removed_spans, stacked, starts, typed, typed_spans, BufferModel, Motion,
};
use crate::idx::{clamped, Idx};
use crate::order::{
    back_to_front, edit_order, ints, is_back_to_front, lemma_back_to_front, lemma_order_distinct,
};
use crate::rope::{chunks, joined, remove, rope_chars, rope_chunks, spliced};
use crate::selection::{SelectionUnaligned, Span};
use ropey::Rope;
use vstd::prelude::*;

verus! {

/// The texts that ropes hold.
pub open spec fn texts(ropes: Seq<Rope>) -> Seq<Seq<char>> {
    ropes.map_values(|r: Rope| rope_chars(r))
}

/// The pieces that ropes store their texts in.
pub open spec fn stored(ropes: Seq<Rope>) -> Seq<Seq<Seq<char>>> {
    ropes.map_values(|r: Rope| rope_chunks(r))
}

/// Whether the pieces that each rope stores its text in are, one after the
/// other, that text.
pub open spec fn whole(ropes: Seq<Rope>) -> bool {
    forall|i: int|
        0 <= i < ropes.len() ==> joined(rope_chunks(#[trigger] ropes[i])) == rope_chars(ropes[i])
}

/// The text of `rope` from `start` up to `end`, or up to its end if `end`
/// lies past it.
pub fn sub_rope(text: &Rope, start: usize, end: usize) -> (res: Rope)
    requires
        start <= end,
        start <= rope_chars(*text).len(),
    ensures
        rope_chars(res) == rope_chars(*text).subrange(
            start as int,
            clamped(rope_chars(*text), end as int),
        ),
        joined(rope_chunks(res)) == rope_chars(res),
{
    let mut sub = text.clone();
    let len: usize = text.len_chars();

    if end < len {
        remove(&mut sub, end, len);
    }
    remove(&mut sub, 0, start);

    sub
}

/// The ranges of a list of `(selection_index, range)`.
pub open spec fn ranges_of(points: Seq<(usize, std::ops::Range<usize>)>) -> Seq<(int, int)> {
    points.map_values(
        |p: (usize, std::ops::Range<usize>)| (p.1.start as int, p.1.end as int),
    )
}

/// Buffer
///
/// A file opened for edition + some state around
#[derive(Debug)]
pub struct Buffer {
    pub text: Rope,
    pub selections: Vec<SelectionUnaligned>,
    pub primary_sel_i: usize,
}

impl View for Buffer {
    type V = BufferModel;

    open spec fn view(&self) -> BufferModel {
        BufferModel {
            text: rope_chars(self.text),
            spans: self.selections@.map_values(|s: SelectionUnaligned| s@),
            primary: self.primary_sel_i as int,
        }
    }
}

impl Clone for Buffer {
    /// A buffer with the same text and the same selections.
    fn clone(&self) -> (res: Self)
        ensures
            res@ == self@,
            res.selections@ == self.selections@,
    {
        let selections = self.selections.clone();
        assert(selections@ =~= self.selections@);
        Buffer { text: self.text.clone(), selections, primary_sel_i: self.primary_sel_i }
    }
}

impl Default for Buffer {
    /// An empty text, with an empty selection at its start.
    fn default() -> (res: Self)
        ensures
            res@ == fresh(Seq::empty()),
    {
        let sel = SelectionUnaligned::default();
        Buffer { text: Rope::default(), selections: vec![sel], primary_sel_i: 0 }
    }
}

impl Buffer {
    /// A buffer with the given text, and an empty selection at its start.
    pub fn from_text(text: Rope) -> (res: Self)
        ensures
            res.text == text,
            res@ == fresh(rope_chars(text)),
    {
        let sel = SelectionUnaligned::default();
        Buffer { text, selections: vec![sel], primary_sel_i: 0 }
    }

    /// What `f` returns for each selection.
    pub fn for_each_selection<F, R>(&self, f: F) -> (res: Vec<R>) where
        F: Fn(SelectionUnaligned, &Rope) -> R,

        requires
            forall|i: int|
                0 <= i < self.selections@.len() ==> call_requires(
                    f,
                    (#[trigger] self.selections@[i], &self.text),
                ),
        ensures
            res@.len() == self.selections@.len(),
            forall|i: int|
                0 <= i < res@.len() ==> call_ensures(
                    f,
                    (self.selections@[i], &self.text),
                    #[trigger] res@[i],
                ),
    {
        let mut res: Vec<R> = Vec::new();
        let mut i: usize = 0;
        while i < self.selections.len()
            invariant
                i <= self.selections@.len(),
                res@.len() == i,
                forall|j: int|
                    0 <= j < self.selections@.len() ==> call_requires(
                        f,
                        (#[trigger] self.selections@[j], &self.text),
                    ),
                forall|j: int|
                    0 <= j < res@.len() ==> call_ensures(
                        f,
                        (self.selections@[j], &self.text),
                        #[trigger] res@[j],
                    ),
            decreases self.selections@.len() - i,
        {
            let r = f(self.selections[i], &self.text);
            res.push(r);
            i = i + 1;
        }
        res
    }

    /// Puts the first part of what `f` returns in the place of each
    /// selection, and returns the second parts.
    pub fn for_each_selection_mut<F, R>(&mut self, f: F) -> (res: Vec<R>) where
        F: Fn(SelectionUnaligned, &Rope) -> (SelectionUnaligned, R),

        requires
            forall|i: int|
                0 <= i < old(self).selections@.len() ==> call_requires(
                    f,
                    (#[trigger] old(self).selections@[i], &old(self).text),
                ),
        ensures
            final(self).text == old(self).text,
            final(self).primary_sel_i == old(self).primary_sel_i,
            final(self).selections@.len() == old(self).selections@.len(),
            res@.len() == old(self).selections@.len(),
            forall|i: int|
                #![trigger final(self).selections@[i]]
                #![trigger res@[i]]
                0 <= i < res@.len() ==> call_ensures(
                    f,
                    (old(self).selections@[i], &old(self).text),
                    (final(self).selections@[i], res@[i]),
                ),
    {
        let mut res: Vec<R> = Vec::new();
        let mut i: usize = 0;
        let ghost before = *old(self);
        while i < self.selections.len()
            invariant
                self.text == before.text,
                self.primary_sel_i == before.primary_sel_i,
                self.selections@.len() == before.selections@.len(),
                i <= self.selections@.len(),
                res@.len() == i,
                forall|j: int|
                    0 <= j < before.selections@.len() ==> call_requires(
                        f,
                        (#[trigger] before.selections@[j], &before.text),
                    ),
                forall|j: int|
                    i <= j < before.selections@.len() ==> #[trigger] self.selections@[j]
                        == before.selections@[j],
                forall|j: int|
                    #![trigger self.selections@[j]]
                    #![trigger res@[j]]
                    0 <= j < i ==> call_ensures(
                        f,
                        (before.selections@[j], &before.text),
                        (self.selections@[j], res@[j]),
                    ),
            decreases self.selections@.len() - i,
        {
            assert(self.selections@[i as int] == before.selections@[i as int]);
            let (sel, r) = f(self.selections[i], &self.text);
            self.selections[i] = sel;
            res.push(r);
            i = i + 1;
        }
        res
    }

    /// `for_each_selection`, with the index of each selection.
    pub fn for_each_enumerated_selection<F, R>(&self, f: F) -> (res: Vec<R>) where
        F: Fn(usize, SelectionUnaligned, &Rope) -> R,

        requires
            forall|i: int|
                0 <= i < self.selections@.len() ==> call_requires(
                    f,
                    (i as usize, #[trigger] self.selections@[i], &self.text),
                ),
        ensures
            res@.len() == self.selections@.len(),
            forall|i: int|
                0 <= i < res@.len() ==> call_ensures(
                    f,
                    (i as usize, self.selections@[i], &self.text),
                    #[trigger] res@[i],
                ),
    {
        let mut res: Vec<R> = Vec::new();
        let mut i: usize = 0;
        while i < self.selections.len()
            invariant
                i <= self.selections@.len(),
                res@.len() == i,
                forall|j: int|
                    0 <= j < self.selections@.len() ==> call_requires(
                        f,
                        (j as usize, #[trigger] self.selections@[j], &self.text),
                    ),
                forall|j: int|
                    0 <= j < res@.len() ==> call_ensures(
                        f,
                        (j as usize, self.selections@[j], &self.text),
                        #[trigger] res@[j],
                    ),
            decreases self.selections@.len() - i,
        {
            let r = f(i, self.selections[i], &self.text);
            res.push(r);
            i = i + 1;
        }
        res
    }

    /// `for_each_selection_mut`, with the index of each selection.
    pub fn for_each_enumerated_selection_mut<F, R>(&mut self, f: F) -> (res: Vec<R>) where
        F: Fn(usize, SelectionUnaligned, &Rope) -> (SelectionUnaligned, R),

        requires
            forall|i: int|
                0 <= i < old(self).selections@.len() ==> call_requires(
                    f,
                    (i as usize, #[trigger] old(self).selections@[i], &old(self).text),
                ),
        ensures
            final(self).text == old(self).text,
            final(self).primary_sel_i == old(self).primary_sel_i,
            final(self).selections@.len() == old(self).selections@.len(),
            res@.len() == old(self).selections@.len(),
            forall|i: int|
                #![trigger final(self).selections@[i]]
                #![trigger res@[i]]
                0 <= i < res@.len() ==> call_ensures(
                    f,
                    (i as usize, old(self).selections@[i], &old(self).text),
                    (final(self).selections@[i], res@[i]),
                ),
    {
        let mut res: Vec<R> = Vec::new();
        let mut i: usize = 0;
        let ghost before = *old(self);
        while i < self.selections.len()
            invariant
                self.text == before.text,
                self.primary_sel_i == before.primary_sel_i,
                self.selections@.len() == before.selections@.len(),
                i <= self.selections@.len(),
                res@.len() == i,
                forall|j: int|
                    0 <= j < before.selections@.len() ==> call_requires(
                        f,
                        (j as usize, #[trigger] before.selections@[j], &before.text),
                    ),
                forall|j: int|
                    i <= j < before.selections@.len() ==> #[trigger] self.selections@[j]
                        == before.selections@[j],
                forall|j: int|
                    #![trigger self.selections@[j]]
                    #![trigger res@[j]]
                    0 <= j < i ==> call_ensures(
                        f,
                        (j as usize, before.selections@[j], &before.text),
                        (self.selections@[j], res@[j]),
                    ),
            decreases self.selections@.len() - i,
        {
            assert(self.selections@[i as int] == before.selections@[i as int]);
            let (sel, r) = f(i, self.selections[i], &self.text);
            self.selections[i] = sel;
            res.push(r);
            i = i + 1;
        }
        res
    }

    /// Whether some selection covers the char at `idx`.
    pub fn is_idx_selected(&self, idx: Idx) -> (res: bool)
        ensures
            res == is_selected(self@, idx.0 as int),
    {
        let mut i: usize = 0;
        while i < self.selections.len()
            invariant
                i <= self.selections@.len(),
                forall|j: int|
                    0 <= j < i ==> !#[trigger] self@.spans[j].covers(self@.text, idx.0 as int),
            decreases self.selections@.len() - i,
        {
            let inside = self.selections[i].align(&self.text).is_idx_inside(idx);
            assert(self@.spans[i as int] == self.selections@[i as int]@);
            assert(inside == self@.spans[i as int].covers(self@.text, idx.0 as int));
            if inside {
                return true;
            }
            i = i + 1;
        }
        false
    }

    /// Swaps the anchor and the cursor of every selection.
    pub fn reverse_selections(&mut self)
        ensures
            final(self)@ == after_reverse(old(self)@),
            final(self).text == old(self).text,
    {
        let swap = |sel: SelectionUnaligned, _text: &Rope| -> (r: (SelectionUnaligned, ()))
            ensures
                r.0@ == sel@.reversed(),
            {
                (sel.reversed(), ())
            };
        self.for_each_selection_mut(swap);
        assert(self@ =~= after_reverse(old(self)@));
    }

    /// Moves every end of a selection that lies past `idx` back by `offset`
    /// chars.
    pub fn sub_to_every_selection_after(&mut self, idx: Idx, offset: usize)
        ensures
            final(self)@ == (BufferModel {
                spans: old(self)@.spans.map_values(
                    |s: Span| pulled_span(old(self)@.text, s, idx.0 as int, offset as int),
                ),
                ..old(self)@
            }),
            final(self).text == old(self).text,
    {
        let pull = |sel: SelectionUnaligned, text: &Rope| -> (r: (SelectionUnaligned, ()))
            ensures
                r.0@ == pulled_span(rope_chars(*text), sel@, idx.0 as int, offset as int),
            {
                proof {
                    lemma_aligned_idx_bounds(rope_chars(*text), sel@.cursor);
                    lemma_aligned_idx_bounds(rope_chars(*text), sel@.anchor);
                }
                let cursor_idx: usize = sel.cursor.to_idx(text).0;
                let anchor_idx: usize = sel.anchor.to_idx(text).0;
                let mut sel = sel;
                if idx.0 < cursor_idx {
                    let moved: usize = cursor_idx.saturating_sub(offset);
                    sel.cursor = CoordUnaligned::from(Idx(moved).to_coord(text));
                }
                if idx.0 < anchor_idx {
                    let moved: usize = anchor_idx.saturating_sub(offset);
                    sel.anchor = CoordUnaligned::from(Idx(moved).to_coord(text));
                }
                (sel, ())
            };
        self.for_each_selection_mut(pull);
        assert(self@.spans =~= old(self)@.spans.map_values(
            |s: Span| pulled_span(old(self)@.text, s, idx.0 as int, offset as int),
        ));
    }

    /// Moves every selection whose cursor lies at `idx` or past it to the
    /// position `offset` chars after that cursor.
    pub fn add_to_every_selection_after(&mut self, idx: Idx, offset: usize)
        ensures
            final(self)@ == (BufferModel {
                spans: old(self)@.spans.map_values(
                    |s: Span| pushed_span(old(self)@.text, s, idx.0 as int, offset as int),
                ),
                ..old(self)@
            }),
            final(self).text == old(self).text,
    {
        let push = |sel: SelectionUnaligned, text: &Rope| -> (r: (SelectionUnaligned, ()))
            ensures
                r.0@ == pushed_span(rope_chars(*text), sel@, idx.0 as int, offset as int),
            {
                proof {
                    lemma_aligned_idx_bounds(rope_chars(*text), sel@.cursor);
                }
                let cursor_idx: usize = sel.cursor.to_idx(text).0;
                let anchor_idx: usize = sel.cursor.to_idx(text).0;
                // a text is never longer than a `usize` can count
                let _len: usize = text.len_chars();
                let mut sel = sel;
                if idx.0 <= cursor_idx {
                    let moved: usize = cursor_idx.saturating_add(offset);
                    sel.cursor = CoordUnaligned::from(Idx(moved).to_coord(text));
                }
                if idx.0 <= anchor_idx {
                    let moved: usize = anchor_idx.saturating_add(offset);
                    sel.anchor = CoordUnaligned::from(Idx(moved).to_coord(text));
                }
                (sel, ())
            };
        self.for_each_selection_mut(push);
        assert(self@.spans =~= old(self)@.spans.map_values(
            |s: Span| pushed_span(old(self)@.text, s, idx.0 as int, offset as int),
        ));
    }

    /// Whether `remove_ranges` can take all the ranges out, one after the
    /// other.
    pub fn can_remove(&self, removal_points: &Vec<(usize, std::ops::Range<usize>)>) -> (res: bool)
        ensures
            res == removable(self@.text, ranges_of(removal_points@)),
    {
        let ghost ranges = ranges_of(removal_points@);
        let order = removal_order(removal_points);
        let mut left: usize = self.text.len_chars();
        let mut k: usize = 0;
        proof {
            lemma_back_to_front(starts(ranges));
        }
        while k < order.len()
            invariant
                ranges == ranges_of(removal_points@),
                ints(order@) == back_to_front(starts(ranges)),
                is_back_to_front(starts(ranges), ints(order@)),
                k <= order@.len(),
                left == removals(self@.text, ranges, k as int).len(),
                forall|j: int|
                    0 <= j < k ==> 0 <= ranges[#[trigger] ints(order@)[j]].0 <= ranges[ints(
                        order@,
                    )[j]].1 <= removals(self@.text, ranges, j).len(),
            decreases order@.len() - k,
        {
            proof {
                assert(ints(order@)[k as int] == order@[k as int] as int);
                assert(0 <= ints(order@)[k as int] < starts(ranges).len());
            }
            let start: usize = removal_points[order[k]].1.start;
            let end: usize = removal_points[order[k]].1.end;
            assert(ranges[ints(order@)[k as int]] == (start as int, end as int));
            if start > end || end > left {
                return false;
            }
            left = left - (end - start);
            k = k + 1;
        }
        true
    }

    /// Remove text at given ranges
    ///
    /// `removal_points` contains list of `(selection_index, range)`,
    pub fn remove_ranges(&mut self, removal_points: Vec<(usize, std::ops::Range<usize>)>)
        requires
            removable(old(self)@.text, ranges_of(removal_points@)),
        ensures
            final(self)@ == after_remove(old(self)@, ranges_of(removal_points@)),
    {
        let ghost m = old(self)@;
        let ghost ranges = ranges_of(removal_points@);
        let order = removal_order(&removal_points);
        proof {
            lemma_back_to_front(starts(ranges));
        }

        // we remove from the back, fixing idx past the removal every time
        let mut k: usize = 0;
        while k < order.len()
            invariant
                ranges == ranges_of(removal_points@),
                removable(m.text, ranges),
                ints(order@) == back_to_front(starts(ranges)),
                is_back_to_front(starts(ranges), ints(order@)),
                k <= order@.len(),
                self@.text == removals(m.text, ranges, k as int),
                self@.spans == removed_spans(m, ranges, k as int),
                self@.primary == m.primary,
            decreases order@.len() - k,
        {
            proof {
                assert(ints(order@)[k as int] == order@[k as int] as int);
                assert(0 <= ints(order@)[k as int] < starts(ranges).len());
            }
            let start: usize = removal_points[order[k]].1.start;
            let end: usize = removal_points[order[k]].1.end;
            assert(ranges[ints(order@)[k as int]] == (start as int, end as int));
            self.sub_to_every_selection_after(Idx(start), end - start);
            // remove has to be after fixes, otherwise to_idx conversion
            // will use the new buffer content, which will give wrong results
            remove(&mut self.text, start, end);
            k = k + 1;
        }
    }

    /// The selected ranges, each with the index of its selection.
    fn selected_ranges(&self) -> (res: Vec<(usize, std::ops::Range<usize>)>)
        ensures
            ranges_of(res@) == self@.ranges(),
    {
        let range = |i: usize, sel: SelectionUnaligned, text: &Rope| -> (r: (
            usize,
            std::ops::Range<usize>,
        ))
            ensures
                r.1.start == sel@.start(rope_chars(*text)),
                r.1.end == sel@.end(rope_chars(*text)),
            {
                (i, sel.align(text).sorted_range_usize())
            };
        let res = self.for_each_enumerated_selection(range);
        assert(ranges_of(res@) =~= self@.ranges());
        res
    }

    /// Whether `delete` can take out all that is selected.
    pub fn can_delete(&self) -> (res: bool)
        ensures
            res == removable(self@.text, self@.ranges()),
    {
        let ranges = self.selected_ranges();
        self.can_remove(&ranges)
    }

    /// Takes what is selected out of the text, and returns it.
    pub fn delete(&mut self) -> (res: Vec<Rope>)
        requires
            removable(old(self)@.text, old(self)@.ranges()),
        ensures
            texts(res@) == old(self)@.selected(),
            whole(res@),
            final(self)@ == after_delete(old(self)@),
    {
        let ghost m = old(self)@;
        let take = |i: usize, sel: SelectionUnaligned, text: &Rope| -> (r: (
            SelectionUnaligned,
            (Rope, usize, std::ops::Range<usize>),
        ))
            ensures
                r.0@ == sel@.collapsed(),
                rope_chars(r.1.0) == rope_chars(*text).subrange(
                    sel@.start(rope_chars(*text)),
                    sel@.end(rope_chars(*text)),
                ),
                joined(rope_chunks(r.1.0)) == rope_chars(r.1.0),
                r.1.2.start == sel@.start(rope_chars(*text)),
                r.1.2.end == sel@.end(rope_chars(*text)),
            {
                proof {
                    lemma_aligned_idx_bounds(rope_chars(*text), sel@.cursor);
                    lemma_aligned_idx_bounds(rope_chars(*text), sel@.anchor);
                }
                let range = sel.align(text).sorted_range_usize();
                let yanked = sub_rope(text, range.start, range.end);
                (sel.collapsed(), (yanked, i, range))
            };
        let taken = self.for_each_enumerated_selection_mut(take);
        let ghost all = taken@;
        proof {
            assert(self@ =~= m.collapsed());
        }

        let mut removal_points: Vec<(usize, std::ops::Range<usize>)> = Vec::new();
        let mut yanked: Vec<Rope> = Vec::new();
        for t in it: taken
            invariant
                it.seq() == all,
                removal_points@.len() == it.index(),
                yanked@.len() == it.index(),
                forall|j: int|
                    0 <= j < it.index() ==> #[trigger] removal_points@[j] == (all[j].1, all[j].2),
                forall|j: int| 0 <= j < it.index() ==> #[trigger] yanked@[j] == all[j].0,
        {
            let (y, i, r) = t;
            removal_points.push((i, r));
            yanked.push(y);
        }
        proof {
            assert(ranges_of(removal_points@) =~= m.ranges());
            assert(texts(yanked@) =~= m.selected());
        }

        self.remove_ranges(removal_points);

        yanked
    }

    /// What is selected.
    pub fn yank(&self) -> (res: Vec<Rope>)
        ensures
            texts(res@) == self@.selected(),
            whole(res@),
    {
        let copy = |sel: SelectionUnaligned, text: &Rope| -> (r: Rope)
            ensures
                rope_chars(r) == rope_chars(*text).subrange(
                    sel@.start(rope_chars(*text)),
                    sel@.end(rope_chars(*text)),
                ),
                joined(rope_chunks(r)) == rope_chars(r),
            {
                proof {
                    lemma_aligned_idx_bounds(rope_chars(*text), sel@.cursor);
                    lemma_aligned_idx_bounds(rope_chars(*text), sel@.anchor);
                }
                let range = sel.align(text).sorted_range_usize();
                sub_rope(text, range.start, range.end)
            };
        let res = self.for_each_selection(copy);
        assert(texts(res@) =~= self@.selected());
        res
    }

    /// Whether `backspace` can take a char out before every cursor.
    pub fn can_backspace(&self) -> (res: bool)
        ensures
            res == removable(self@.text, before_cursors(self@)),
    {
        let ghost m = self@;
        let mut points: Vec<(usize, std::ops::Range<usize>)> = Vec::new();
        let mut i: usize = 0;
        while i < self.selections.len()
            invariant
                m == self@,
                i <= self.selections@.len(),
                points@.len() == i,
                forall|j: int|
                    0 <= j < i ==> ranges_of(points@)[j] == #[trigger] before_cursors(m)[j],
            decreases self.selections@.len() - i,
        {
            let cursor: usize = self.selections[i].align(&self.text).cursor.0;
            assert(m.spans[i as int] == self.selections@[i as int]@);
            assert(before_cursors(m)[i as int] == (cursor - 1, cursor as int));
            if cursor == 0 {
                proof {
                    lemma_not_removable(m.text, before_cursors(m), i as int);
                }
                return false;
            }
            let ghost before = points@;
            points.push((i, cursor - 1..cursor));
            assert forall|j: int| 0 <= j < i + 1 implies ranges_of(points@)[j]
                == #[trigger] before_cursors(m)[j] by {
                if j < i {
                    assert(ranges_of(before)[j] == before_cursors(m)[j]);
                }
            }
            i = i + 1;
        }
        assert(ranges_of(points@) =~= before_cursors(m));
        self.can_remove(&points)
    }

    /// Takes the char before each cursor out.
    pub fn backspace(&mut self)
        requires
            removable(old(self)@.text, before_cursors(old(self)@)),
        ensures
            final(self)@ == after_backspace(old(self)@),
    {
        let ghost m = old(self)@;
        proof {
            assert forall|j: int| 0 <= j < m.spans.len() implies #[trigger] before_cursors(m)[j].0
                >= 0 by {
                if before_cursors(m)[j].0 < 0 {
                    lemma_not_removable(m.text, before_cursors(m), j);
                }
            }
            assert forall|j: int| 0 <= j < self.selections@.len() implies aligned_idx(
                rope_chars(self.text),
                (#[trigger] self.selections@[j])@.cursor,
            ) > 0 by {
                assert(m.spans[j] == self.selections@[j]@);
                assert(before_cursors(m)[j].0 == m.cursors()[j] - 1);
            }
        }
        let before = |i: usize, sel: SelectionUnaligned, text: &Rope| -> (r: (
            SelectionUnaligned,
            (usize, std::ops::Range<usize>),
        ))
            requires
                aligned_idx(rope_chars(*text), sel@.cursor) > 0,
            ensures
                r.0@ == sel@.collapsed(),
                r.1.1.start == aligned_idx(rope_chars(*text), sel@.cursor) - 1,
                r.1.1.end == aligned_idx(rope_chars(*text), sel@.cursor),
            {
                let cursor: usize = sel.align(text).cursor.0;
                (sel.collapsed(), (i, cursor - 1..cursor))
            };
        let removal_points = self.for_each_enumerated_selection_mut(before);
        proof {
            assert(self@ =~= m.collapsed());
            assert(ranges_of(removal_points@) =~= before_cursors(m));
        }

        self.remove_ranges(removal_points);
    }

    /// The positions of the cursors.
    fn insertion_points(&self) -> (res: Vec<usize>)
        ensures
            ints(res@) == self@.cursors(),
    {
        let at = |sel: SelectionUnaligned, text: &Rope| -> (r: usize)
            ensures
                r == aligned_idx(rope_chars(*text), sel@.cursor),
            {
                proof {
                    lemma_aligned_is_aligned(rope_chars(*text), sel@.cursor);
                }
                sel.cursor.align(text).to_idx(text).0
            };
        let res = self.for_each_selection(at);
        assert(ints(res@) =~= self@.cursors());
        res
    }

    /// Types `ch` at every cursor.
    pub fn insert(&mut self, ch: char)
        ensures
            final(self)@ == after_insert(old(self)@, ch),
    {
        let ghost m = old(self)@;
        let ghost pieces = typed(ch, m.spans.len());
        let points = self.insertion_points();
        let order = edit_order(&points);
        let ghost o = ints(order@);
        proof {
            lemma_back_to_front(m.cursors());
            lemma_cursors(m);
        }

        // we insert from the back, fixing idx past the insertion every time
        // this is O(n^2) while it could be O(n)
        let mut k: usize = 0;
        while k < order.len()
            invariant
                m.valid(),
                pieces == typed(ch, m.spans.len()),
                ints(points@) == m.cursors(),
                o == ints(order@),
                o == back_to_front(m.cursors()),
                is_back_to_front(m.cursors(), o),
                forall|i: int|
                    0 <= i < m.cursors().len() ==> 0 <= #[trigger] m.cursors()[i] <= m.text.len(),
                m.cursors().len() == m.spans.len(),
                k <= order@.len(),
                self@.text == insertions(m.text, m.cursors(), pieces, k as int),
                self@.spans == typed_spans(m, ch, k as int),
                self@.spans.len() == m.spans.len(),
                self@.primary == m.primary,
            decreases order@.len() - k,
        {
            proof {
                lemma_insertions_len(m.text, m.cursors(), pieces, k as int);
                assert(o[k as int] == order@[k as int] as int);
                assert(0 <= o[k as int] < m.cursors().len());
                assert(ints(points@)[o[k as int]] == points@[o[k as int]] as int);
            }
            let idx: usize = points[order[k]];
            self.text.insert_char(idx, ch);
            let ghost text = self@.text;
            let ghost before = typed_spans(m, ch, k as int);
            assert(text == insertions(m.text, m.cursors(), pieces, k + 1));

            let mut j: usize = 0;
            while j <= k
                invariant
                    k < order.len(),
                    j <= k + 1,
                    o == ints(order@),
                    is_back_to_front(m.cursors(), o),
                    m.cursors().len() == m.spans.len(),
                    self@.text == text,
                    self@.primary == m.primary,
                    self@.spans.len() == m.spans.len(),
                    forall|i: int|
                        0 <= i < m.spans.len() ==> #[trigger] self@.spans[i] == if o.take(
                            j as int,
                        ).contains(i) {
                            let cursor = forward_by(text, before[i].cursor, 1);
                            Span { anchor: cursor, cursor }
                        } else {
                            before[i]
                        },
                decreases k + 1 - j,
            {
                let ghost p = o[j as int];
                let ghost spans = self@.spans;
                proof {
                    assert(p == order@[j as int] as int);
                    assert(0 <= p < m.cursors().len());
                    lemma_taken(m.cursors(), o, j as int);
                }
                let sel_i: usize = order[j];
                let mut fixing_sel = self.selections[sel_i];
                assert(spans[p] == fixing_sel@);
                fixing_sel.cursor = fixing_sel.cursor.forward(&self.text);
                self.selections[sel_i] = fixing_sel.collapsed();
                assert(self@.spans =~= spans.update(p, self@.spans[p]));
                j = j + 1;
            }
            assert(self@.spans =~= typed_spans(m, ch, k + 1));
            k = k + 1;
        }
    }

    /// Puts the pieces of a rope in at `idx`, one after the other.
    fn insert_chunks(&mut self, idx: usize, rope: &Rope)
        requires
            idx <= old(self)@.text.len(),
        ensures
            final(self)@ == (BufferModel {
                text: spliced(old(self)@.text, idx as int, stacked(rope_chunks(*rope))),
                ..old(self)@
            }),
            final(self).selections == old(self).selections,
            stacked(rope_chunks(*rope)).len() == rope_chars(*rope).len(),
    {
        let ghost text = self@.text;
        let pieces = chunks(rope);
        let ghost all = pieces@.map_values(|s: String| s@);
        proof {
            lemma_stacked_len(all);
            assert(all.take(0) =~= Seq::empty());
            assert(text =~= spliced(text, idx as int, Seq::empty()));
        }
        let mut j: usize = 0;
        while j < pieces.len()
            invariant
                all == pieces@.map_values(|s: String| s@),
                j <= pieces@.len(),
                idx <= text.len(),
                self@.text == spliced(text, idx as int, stacked(all.take(j as int))),
                self.selections == old(self).selections,
                self.primary_sel_i == old(self).primary_sel_i,
            decreases pieces@.len() - j,
        {
            let ghost before = stacked(all.take(j as int));
            self.text.insert(idx, pieces[j].as_str());
            proof {
                assert(all.take(j + 1).drop_last() =~= all.take(j as int));
                assert(all.take(j + 1).last() == pieces@[j as int]@);
                assert(spliced(spliced(text, idx as int, before), idx as int, pieces@[j as int]@)
                    =~= spliced(text, idx as int, pieces@[j as int]@ + before));
            }
            j = j + 1;
        }
        assert(all.take(j as int) =~= all);
    }

    /// Pastes a text at each cursor, from the back to the front, as long as
    /// there are texts.
    fn paste_at_cursors(&mut self, yanked: &[Rope], extend: bool)
        ensures
            final(self)@ == after_paste(old(self)@, stored(yanked@), extend),
    {
        let ghost m = old(self)@;
        let ghost pieces = stored(yanked@).map_values(|s: Seq<Seq<char>>| stacked(s));
        let points = self.insertion_points();
        let order = edit_order(&points);
        let ghost o = ints(order@);
        proof {
            lemma_back_to_front(m.cursors());
            lemma_cursors(m);
        }

        // we insert from the back, fixing idx past the insertion every time
        // this is O(n^2) while it could be O(n)
        let mut k: usize = 0;
        while k < order.len()
            invariant
                m.valid(),
                pieces == stored(yanked@).map_values(|s: Seq<Seq<char>>| stacked(s)),
                ints(points@) == m.cursors(),
                o == ints(order@),
                o == back_to_front(m.cursors()),
                is_back_to_front(m.cursors(), o),
                forall|i: int|
                    0 <= i < m.cursors().len() ==> 0 <= #[trigger] m.cursors()[i] <= m.text.len(),
                m.cursors().len() == m.spans.len(),
                k <= order@.len(),
                self@.text == insertions(m.text, m.cursors(), pieces, k as int),
                self@.spans == pasted_spans(m, pieces, extend, k as int),
                self@.spans.len() == m.spans.len(),
                self@.primary == m.primary,
            decreases order@.len() - k,
        {
            if k < yanked.len() {
                let ghost before = pasted_spans(m, pieces, extend, k as int);
                let ghost p = o[k as int];
                proof {
                    lemma_insertions_len(m.text, m.cursors(), pieces, k as int);
                    assert(p == order@[k as int] as int);
                    assert(0 <= p < m.cursors().len());
                    assert(ints(points@)[p] == points@[p] as int);
                    assert(pieces[k as int] == stacked(rope_chunks(yanked@[k as int])));
                }
                let to_yank = &yanked[k];
                let idx: usize = points[order[k]];
                self.insert_chunks(idx, to_yank);
                let len: usize = to_yank.len_chars();
                let ghost text = self@.text;
                assert(text == insertions(m.text, m.cursors(), pieces, k + 1));

                let sel_i: usize = order[k];
                let fixed = fixed_selection(self.selections[sel_i], &self.text, len, extend);
                assert(before[p] == self.selections@[p]@);
                self.selections[sel_i] = fixed;
                assert(self@.spans =~= before.update(p, fixed@));

                let mut j: usize = 0;
                while j < k
                    invariant
                        k < order.len(),
                        j <= k,
                        o == ints(order@),
                        is_back_to_front(m.cursors(), o),
                        m.cursors().len() == m.spans.len(),
                        p == o[k as int],
                        before.len() == m.spans.len(),
                        self@.text == text,
                        self@.primary == m.primary,
                        self@.spans.len() == m.spans.len(),
                        forall|i: int|
                            0 <= i < m.spans.len() ==> #[trigger] self@.spans[i] == if i == p {
                                fixed@
                            } else if o.take(j as int).contains(i) {
                                Span {
                                    anchor: pushed(text, before[i].anchor, idx as int, len as int),
                                    cursor: pushed(text, before[i].cursor, idx as int, len as int),
                                }
                            } else {
                                before[i]
                            },
                    decreases k - j,
                {
                    let ghost q = o[j as int];
                    let ghost spans = self@.spans;
                    proof {
                        assert(q == order@[j as int] as int);
                        assert(0 <= q < m.cursors().len());
                        lemma_taken(m.cursors(), o, j as int);
                        if q == p {
                            lemma_order_distinct(m.cursors(), o, j as int, k as int);
                        }
                    }
                    let sel_i: usize = order[j];
                    let mut fixing_sel = self.selections[sel_i];
                    assert(spans[q] == fixing_sel@);
                    if idx <= fixing_sel.cursor.to_idx(&self.text).0 {
                        fixing_sel.cursor = fixing_sel.cursor.forward_n(len, &self.text);
                    }
                    if idx <= fixing_sel.anchor.to_idx(&self.text).0 {
                        fixing_sel.anchor = fixing_sel.anchor.forward_n(len, &self.text);
                    }
                    self.selections[sel_i] = fixing_sel;
                    assert(self@.spans =~= spans.update(q, self@.spans[q]));
                    j = j + 1;
                }
                assert(self@.spans =~= pasted_spans(m, pieces, extend, k + 1));
            }
            k = k + 1;
        }
    }

    /// Pastes the texts at the cursors, and selects what was pasted.
    pub fn paste(&mut self, yanked: &[Rope])
        ensures
            final(self)@ == after_paste(old(self)@, stored(yanked@), false),
    {
        self.paste_at_cursors(yanked, false);
    }

    /// Pastes the texts at the cursors, and extends the selections over what
    /// was pasted.
    pub fn paste_extend(&mut self, yanked: &[Rope])
        ensures
            final(self)@ == after_paste(old(self)@, stored(yanked@), true),
    {
        self.paste_at_cursors(yanked, true);
    }

    /// Moves every cursor as `f` says, and each anchor to where the cursor was.
    pub fn move_cursor<F>(&mut self, f: F) where F: Fn(CoordUnaligned, &Rope) -> CoordUnaligned,

        requires
            forall|i: int|
                0 <= i < old(self).selections@.len() ==> call_requires(
                    f,
                    ((#[trigger] old(self).selections@[i]).cursor, &old(self).text),
                ),
        ensures
            final(self).text == old(self).text,
            final(self).primary_sel_i == old(self).primary_sel_i,
            final(self).selections@.len() == old(self).selections@.len(),
            forall|i: int|
                0 <= i < old(self).selections@.len() ==> {
                    let sel = #[trigger] final(self).selections@[i];
                    let cursor = old(self).selections@[i].cursor;
                    &&& sel.anchor == cursor
                    &&& call_ensures(f, (cursor, &old(self).text), sel.cursor)
                },
    {
        let g = &f;
        let step = |sel: SelectionUnaligned, text: &Rope| -> (r: (SelectionUnaligned, ()))
            requires
                can_move(g, sel.cursor, text),
            ensures
                r.0.anchor == sel.cursor,
                moves(g, sel.cursor, text, r.0.cursor),
            {
                let new_cursor = g(sel.cursor, text);
                (SelectionUnaligned { anchor: sel.cursor, cursor: new_cursor }, ())
            };
        self.for_each_selection_mut(step);
    }

    /// Moves every anchor and every cursor to where `f` leads from the cursor.
    pub fn move_cursor_2<F>(&mut self, f: F) where
        F: Fn(CoordUnaligned, &Rope) -> (CoordUnaligned, CoordUnaligned),

        requires
            forall|i: int|
                0 <= i < old(self).selections@.len() ==> call_requires(
                    f,
                    ((#[trigger] old(self).selections@[i]).cursor, &old(self).text),
                ),
        ensures
            final(self).text == old(self).text,
            final(self).primary_sel_i == old(self).primary_sel_i,
            final(self).selections@.len() == old(self).selections@.len(),
            forall|i: int|
                0 <= i < old(self).selections@.len() ==> {
                    let sel = #[trigger] final(self).selections@[i];
                    let cursor = old(self).selections@[i].cursor;
                    call_ensures(f, (cursor, &old(self).text), (sel.anchor, sel.cursor))
                },
    {
        let g = &f;
        let step = |sel: SelectionUnaligned, text: &Rope| -> (r: (SelectionUnaligned, ()))
            requires
                can_move(g, sel.cursor, text),
            ensures
                moves(g, sel.cursor, text, (r.0.anchor, r.0.cursor)),
            {
                let (new_anchor, new_cursor) = g(sel.cursor, text);
                (SelectionUnaligned { anchor: new_anchor, cursor: new_cursor }, ())
            };
        self.for_each_selection_mut(step);
    }

    /// Moves every cursor as `f` says.
    pub fn extend_cursor<F>(&mut self, f: F) where F: Fn(CoordUnaligned, &Rope) -> CoordUnaligned,

        requires
            forall|i: int|
                0 <= i < old(self).selections@.len() ==> call_requires(
                    f,
                    ((#[trigger] old(self).selections@[i]).cursor, &old(self).text),
                ),
        ensures
            final(self).text == old(self).text,
            final(self).primary_sel_i == old(self).primary_sel_i,
            final(self).selections@.len() == old(self).selections@.len(),
            forall|i: int|
                0 <= i < old(self).selections@.len() ==> {
                    let sel = #[trigger] final(self).selections@[i];
                    let before = old(self).selections@[i];
                    &&& sel.anchor == before.anchor
                    &&& call_ensures(f, (before.cursor, &old(self).text), sel.cursor)
                },
    {
        let g = &f;
        let step = |sel: SelectionUnaligned, text: &Rope| -> (r: (SelectionUnaligned, ()))
            requires
                can_move(g, sel.cursor, text),
            ensures
                r.0.anchor == sel.anchor,
                moves(g, sel.cursor, text, r.0.cursor),
            {
                let new_cursor = g(sel.cursor, text);
                (SelectionUnaligned { anchor: sel.anchor, cursor: new_cursor }, ())
            };
        self.for_each_selection_mut(step);
    }

    /// Moves every cursor to the second place where `f` leads from it.
    pub fn extend_cursor_2<F>(&mut self, f: F) where
        F: Fn(CoordUnaligned, &Rope) -> (CoordUnaligned, CoordUnaligned),

        requires
            forall|i: int|
                0 <= i < old(self).selections@.len() ==> call_requires(
                    f,
                    ((#[trigger] old(self).selections@[i]).cursor, &old(self).text),
                ),
        ensures
            final(self).text == old(self).text,
            final(self).primary_sel_i == old(self).primary_sel_i,
            final(self).selections@.len() == old(self).selections@.len(),
            forall|i: int|
                0 <= i < old(self).selections@.len() ==> {
                    let sel = #[trigger] final(self).selections@[i];
                    let before = old(self).selections@[i];
                    &&& sel.anchor == before.anchor
                    &&& exists|ends: (CoordUnaligned, CoordUnaligned)|
                        #[trigger] call_ensures(f, (before.cursor, &old(self).text), ends)
                            && ends.1 == sel.cursor
                },
    {
        let g = &f;
        let step = |sel: SelectionUnaligned, text: &Rope| -> (r: (SelectionUnaligned, ()))
            requires
                can_move(g, sel.cursor, text),
            ensures
                r.0.anchor == sel.anchor,
                exists|ends: (CoordUnaligned, CoordUnaligned)|
                    #[trigger] moves(g, sel.cursor, text, ends) && ends.1 == r.0.cursor,
            {
                let ends = g(sel.cursor, text);
                assert(moves(g, sel.cursor, text, ends));
                (SelectionUnaligned { anchor: sel.anchor, cursor: ends.1 }, ())
            };
        self.for_each_selection_mut(step);
    }

    /// Moves every cursor and every anchor to where `f` leads from the two.
    pub fn change_selection<F>(&mut self, f: F) where
        F: Fn(CoordUnaligned, CoordUnaligned, &Rope) -> (CoordUnaligned, CoordUnaligned),

        requires
            forall|i: int|
                0 <= i < old(self).selections@.len() ==> call_requires(
                    f,
                    (
                        (#[trigger] old(self).selections@[i]).cursor,
                        old(self).selections@[i].anchor,
                        &old(self).text,
                    ),
                ),
        ensures
            final(self).text == old(self).text,
            final(self).primary_sel_i == old(self).primary_sel_i,
            final(self).selections@.len() == old(self).selections@.len(),
            forall|i: int|
                0 <= i < old(self).selections@.len() ==> {
                    let sel = #[trigger] final(self).selections@[i];
                    let before = old(self).selections@[i];
                    call_ensures(
                        f,
                        (before.cursor, before.anchor, &old(self).text),
                        (sel.cursor, sel.anchor),
                    )
                },
    {
        let g = &f;
        let step = |sel: SelectionUnaligned, text: &Rope| -> (r: (SelectionUnaligned, ()))
            requires
                can_change(g, sel.cursor, sel.anchor, text),
            ensures
                changes(g, sel.cursor, sel.anchor, text, (r.0.cursor, r.0.anchor)),
            {
                let (new_cursor, new_anchor) = g(sel.cursor, sel.anchor, text);
                (SelectionUnaligned { anchor: new_anchor, cursor: new_cursor }, ())
            };
        self.for_each_selection_mut(step);
    }

    /// Moves every cursor one char back.
    pub fn move_cursor_backward(&mut self)
        ensures
            final(self)@ == after_move(old(self)@, Motion::Backward),
            final(self).text == old(self).text,
    {
        self.move_cursor(CoordUnaligned::backward);
        assert(self@ =~= after_move(old(self)@, Motion::Backward));
    }

    /// Moves every cursor one char forward.
    pub fn move_cursor_forward(&mut self)
        ensures
            final(self)@ == after_move(old(self)@, Motion::Forward),
            final(self).text == old(self).text,
    {
        self.move_cursor(CoordUnaligned::forward);
        assert(self@ =~= after_move(old(self)@, Motion::Forward));
    }

    /// Moves every cursor one line down.
    pub fn move_cursor_down(&mut self)
        ensures
            final(self)@ == after_move(old(self)@, Motion::Down),
            final(self).text == old(self).text,
    {
        self.move_cursor(CoordUnaligned::down_unaligned);
        assert(self@ =~= after_move(old(self)@, Motion::Down));
    }

    /// Moves every cursor one line up.
    pub fn move_cursor_up(&mut self)
        ensures
            final(self)@ == after_move(old(self)@, Motion::Up),
            final(self).text == old(self).text,
    {
        self.move_cursor(CoordUnaligned::up_unaligned);
        assert(self@ =~= after_move(old(self)@, Motion::Up));
    }

    /// Moves every cursor to the start of the next word.
    pub fn move_cursor_forward_word(&mut self)
        ensures
            final(self)@ == after_word(old(self)@, true),
            final(self).text == old(self).text,
    {
        self.move_cursor_2(CoordUnaligned::forward_word);
        assert(self@ =~= after_word(old(self)@, true));
    }

    /// Moves every cursor to the start of the word before it.
    pub fn move_cursor_backward_word(&mut self)
        ensures
            final(self)@ == after_word(old(self)@, false),
            final(self).text == old(self).text,
    {
        self.move_cursor_2(CoordUnaligned::backward_word);
        assert(self@ =~= after_word(old(self)@, false));
    }

    /// Where the first cursor is.
    pub fn cursor_pos(&self) -> (res: Coord)
        requires
            self.selections@.len() > 0,
        ensures
            res@ == aligned(self@.text, self@.spans[0].cursor),
    {
        self.selections[0].cursor.align(&self.text)
    }

    /// Selects the line of every cursor, its line break included.
    pub fn move_line(&mut self)
        ensures
            final(self)@ == after_line(old(self)@),
            final(self).text == old(self).text,
    {
        let line = |cursor: CoordUnaligned, _anchor: CoordUnaligned, text: &Rope| -> (r: (
            CoordUnaligned,
            CoordUnaligned,
        ))
            ensures
                r.0@ == past_line_end(rope_chars(*text), cursor@),
                r.1@ == line_start_of(rope_chars(*text), cursor@),
            {
                (cursor.forward_past_line_end(text), cursor.backward_to_line_start(text))
            };
        self.change_selection(line);
        assert(self@ =~= after_line(old(self)@));
    }

    /// Extends every selection to the end of the cursor's line, and back to
    /// the start of the line that its earlier end is on.
    pub fn extend_line(&mut self)
        ensures
            final(self)@ == after_extend_line(old(self)@),
            final(self).text == old(self).text,
    {
        let line = |cursor: CoordUnaligned, anchor: CoordUnaligned, text: &Rope| -> (r: (
            CoordUnaligned,
            CoordUnaligned,
        ))
            ensures
                r.0@ == past_line_end(rope_chars(*text), cursor@),
                r.1@ == line_anchor(rope_chars(*text), Span { anchor: anchor@, cursor: cursor@ }),
            {
                let anchor = earlier(cursor, anchor);
                (
                    cursor.forward_past_line_end(text),
                    if anchor.column == 0 {
                        anchor
                    } else {
                        anchor.backward_to_line_start(text)
                    },
                )
            };
        self.change_selection(line);
        assert(self@ =~= after_extend_line(old(self)@));
    }
}

/// Whether `f` can be called on a coordinate of the text.
spec fn can_move<R, F: Fn(CoordUnaligned, &Rope) -> R>(
    f: &F,
    cursor: CoordUnaligned,
    text: &Rope,
) -> bool {
    call_requires(*f, (cursor, text))
}

/// Whether `f` can return `res` for a coordinate of the text.
spec fn moves<R, F: Fn(CoordUnaligned, &Rope) -> R>(
    f: &F,
    cursor: CoordUnaligned,
    text: &Rope,
    res: R,
) -> bool {
    call_ensures(*f, (cursor, text), res)
}

/// Whether `f` can be called on the two ends of a selection.
spec fn can_change<R, F: Fn(CoordUnaligned, CoordUnaligned, &Rope) -> R>(
    f: &F,
    cursor: CoordUnaligned,
    anchor: CoordUnaligned,
    text: &Rope,
) -> bool {
    call_requires(*f, (cursor, anchor, text))
}

/// Whether `f` can return `res` for the two ends of a selection.
spec fn changes<R, F: Fn(CoordUnaligned, CoordUnaligned, &Rope) -> R>(
    f: &F,
    cursor: CoordUnaligned,
    anchor: CoordUnaligned,
    text: &Rope,
    res: R,
) -> bool {
    call_ensures(*f, (cursor, anchor, text), res)
}

/// The selection at whose cursor `len` chars were pasted.
fn fixed_selection(sel: SelectionUnaligned, text: &Rope, len: usize, extend: bool) -> (res:
    SelectionUnaligned)
    ensures
        res@ == if extend {
            extended_span(rope_chars(*text), sel@, len as int)
        } else {
            pasted_span(rope_chars(*text), sel@, len as int)
        },
{
    let mut sel = sel;
    if sel.align(text).is_forward().unwrap_or(true) {
        if !extend {
            sel.anchor = sel.cursor;
        }
        sel.cursor = sel.cursor.forward_n(len, text);
    } else {
        let from = if extend {
            sel.anchor
        } else {
            sel.cursor
        };
        sel.anchor = from.forward_n(len, text);
    }
    sel
}

/// The places that stand at the first `k + 1` indices of an order: the one at
/// `k`, and those before it, of which it is none.
proof fn lemma_taken(keys: Seq<int>, order: Seq<int>, k: int)
    requires
        is_back_to_front(keys, order),
        0 <= k < order.len(),
    ensures
        !order.take(k).contains(order[k]),
        forall|i: int|
            #[trigger] order.take(k + 1).contains(i) <==> (i == order[k] || order.take(k).contains(
                i,
            )),
{
    if order.take(k).contains(order[k]) {
        let j = choose|j: int| 0 <= j < k && order.take(k)[j] == order[k];
        lemma_order_distinct(keys, order, j, k);
    }
    assert forall|i: int| #[trigger] order.take(k + 1).contains(i) <==> (i == order[k]
        || order.take(k).contains(i)) by {
        if order.take(k + 1).contains(i) {
            let upto = order.take(k + 1);
            let j = choose|j: int| 0 <= j < upto.len() && upto[j] == i;
            if j < k {
                assert(order.take(k)[j] == i);
            }
        }
        if i == order[k] {
            assert(order.take(k + 1)[k] == i);
        }
        if order.take(k).contains(i) {
            let j = choose|j: int| 0 <= j < k && order.take(k)[j] == i;
            assert(order.take(k + 1)[j] == i);
        }
    }
}

/// Ranges of which one starts before the text cannot be taken out.
proof fn lemma_not_removable(text: Seq<char>, ranges: Seq<(int, int)>, i: int)
    requires
        0 <= i < ranges.len(),
        ranges[i].0 < 0,
    ensures
        !removable(text, ranges),
{
    let order = back_to_front(starts(ranges));
    lemma_back_to_front(starts(ranges));
    assert(order.contains(i));
    let k = choose|k: int| 0 <= k < order.len() && order[k] == i;
    assert(ranges[order[k]].0 < 0);
}

/// The order in which to take the ranges out.
fn removal_order(points: &Vec<(usize, std::ops::Range<usize>)>) -> (res: Vec<usize>)
    ensures
        ints(res@) == back_to_front(starts(ranges_of(points@))),
{
    let mut keys: Vec<usize> = Vec::new();
    let mut i: usize = 0;
    while i < points.len()
        invariant
            i <= points@.len(),
            keys@.len() == i,
            forall|j: int| 0 <= j < i ==> #[trigger] keys@[j] == points@[j].1.start,
        decreases points@.len() - i,
    {
        keys.push(points[i].1.start);
        i = i + 1;
    }
    assert(ints(keys@) =~= starts(ranges_of(points@)));
    edit_order(&keys)
}

} // verus!
