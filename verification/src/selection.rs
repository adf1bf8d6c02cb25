//! Selections: an anchor, where a selection was begun, and a cursor.

use crate::coord::{aligned, aligned_idx, lemma_aligned_is_aligned, CoordUnaligned, Pos};
use crate::idx::Idx;
use crate::rope::rope_chars;
use ropey::Rope;
use vstd::prelude::*;

verus! {

/// An anchor and a cursor, each a line and a column.
pub struct Span {
    pub anchor: Pos,
    pub cursor: Pos,
}

impl Span {
    /// Whether its lines and columns are numbers that count something.
    pub open spec fn valid(self) -> bool {
        self.anchor.valid() && self.cursor.valid()
    }

    /// Where the selection starts in the text: the position of its smaller
    /// end.
    pub open spec fn start(self, text: Seq<char>) -> int {
        let (anchor, cursor) = (aligned_idx(text, self.anchor), aligned_idx(text, self.cursor));
        if anchor < cursor {
            anchor
        } else {
            cursor
        }
    }

    /// Where the selection stops in the text: the position of its greater end.
    pub open spec fn end(self, text: Seq<char>) -> int {
        let (anchor, cursor) = (aligned_idx(text, self.anchor), aligned_idx(text, self.cursor));
        if anchor < cursor {
            cursor
        } else {
            anchor
        }
    }

    /// Whether the char at `idx` is selected.
    pub open spec fn covers(self, text: Seq<char>, idx: int) -> bool {
        self.start(text) <= idx < self.end(text)
    }

    /// The empty selection at the cursor.
    pub open spec fn collapsed(self) -> Span {
        Span { anchor: self.cursor, cursor: self.cursor }
    }

    /// The anchor and the cursor in each other's place.
    pub open spec fn reversed(self) -> Span {
        Span { anchor: self.cursor, cursor: self.anchor }
    }
}

/// Selection with `CoordUnaligned`
///
/// An ordered pair of coordinates in the buffer
#[derive(Debug, Clone, Copy)]
pub struct SelectionUnaligned {
    pub anchor: CoordUnaligned,
    pub cursor: CoordUnaligned,
}

impl View for SelectionUnaligned {
    type V = Span;

    open spec fn view(&self) -> Span {
        Span { anchor: self.anchor@, cursor: self.cursor@ }
    }
}

impl Default for SelectionUnaligned {
    /// The empty selection at the start of the text.
    fn default() -> (res: Self)
        ensures
            res@ == (Span {
                anchor: Pos { line: 0, column: 0 },
                cursor: Pos { line: 0, column: 0 },
            }),
    {
        SelectionUnaligned {
            anchor: CoordUnaligned { line: 0, column: 0 },
            cursor: CoordUnaligned { line: 0, column: 0 },
        }
    }
}

impl SelectionUnaligned {
    /// The positions that the two ends fall on.
    pub fn align(self, text: &Rope) -> (res: Selection)
        ensures
            res.anchor.0 == aligned_idx(rope_chars(*text), self@.anchor),
            res.cursor.0 == aligned_idx(rope_chars(*text), self@.cursor),
    {
        proof {
            lemma_aligned_is_aligned(rope_chars(*text), self@.anchor);
            lemma_aligned_is_aligned(rope_chars(*text), self@.cursor);
        }
        Selection {
            anchor: self.anchor.align(text).to_idx(text),
            cursor: self.cursor.align(text).to_idx(text),
        }
    }

    /// The coordinates of the positions that the two ends fall on.
    pub fn trim(self, text: &Rope) -> (res: Self)
        ensures
            res@.anchor == aligned(rope_chars(*text), self@.anchor),
            res@.cursor == aligned(rope_chars(*text), self@.cursor),
    {
        SelectionUnaligned { anchor: self.anchor.trim(text), cursor: self.cursor.trim(text) }
    }

    /// Collapse anchor to the cursor
    pub fn collapsed(self) -> (res: Self)
        ensures
            res == (SelectionUnaligned { anchor: self.cursor, cursor: self.cursor }),
            res@ == self@.collapsed(),
    {
        SelectionUnaligned { cursor: self.cursor, anchor: self.cursor }
    }

    /// Swap anchor and cursor
    pub fn reversed(self) -> (res: Self)
        ensures
            res == (SelectionUnaligned { anchor: self.cursor, cursor: self.anchor }),
            res@ == self@.reversed(),
    {
        SelectionUnaligned { anchor: self.cursor, cursor: self.anchor }
    }
}

/// Selection with coordinates aligned
///
/// As coordinates are aligned, it's OK to keep
/// just the index in the text.
#[derive(Debug, Clone, Copy)]
pub struct Selection {
    pub anchor: Idx,
    pub cursor: Idx,
}

impl Default for Selection {
    /// The empty selection at the start of the text.
    fn default() -> (res: Self)
        ensures
            res == (Selection { anchor: Idx(0), cursor: Idx(0) }),
    {
        Selection { anchor: Idx(0), cursor: Idx(0) }
    }
}

impl Selection {
    /// The smaller end of the selection.
    pub open spec fn low(self) -> usize {
        if self.anchor.0 < self.cursor.0 {
            self.anchor.0
        } else {
            self.cursor.0
        }
    }

    /// The greater end of the selection.
    pub open spec fn high(self) -> usize {
        if self.anchor.0 < self.cursor.0 {
            self.cursor.0
        } else {
            self.anchor.0
        }
    }

    /// Whether the char at `idx` is selected: the ends may come in either
    /// order, and the char at the greater one is not.
    pub fn is_idx_inside(self, idx: Idx) -> (res: bool)
        ensures
            res == (self.low() <= idx.0 < self.high()),
    {
        let anchor: usize = self.anchor.0;
        let cursor: usize = self.cursor.0;

        if anchor < cursor {
            anchor <= idx.0 && idx.0 < cursor
        } else if cursor < anchor {
            cursor <= idx.0 && idx.0 < anchor
        } else {
            false
        }
    }

    /// Whether the cursor comes after the anchor; `None` for an empty
    /// selection.
    pub fn is_forward(self) -> (res: Option<bool>)
        ensures
            res == if self.anchor.0 == self.cursor.0 {
                None::<bool>
            } else {
                Some(self.anchor.0 < self.cursor.0)
            },
    {
        let anchor: usize = self.anchor.0;
        let cursor: usize = self.cursor.0;

        if anchor < cursor {
            Some(true)
        } else if cursor < anchor {
            Some(false)
        } else {
            None
        }
    }

    /// The two ends, the smaller one first.
    pub fn sorted(self) -> (res: (Idx, Idx))
        ensures
            res == (Idx(self.low()), Idx(self.high())),
    {
        if self.anchor.0 < self.cursor.0 {
            (self.anchor, self.cursor)
        } else {
            (self.cursor, self.anchor)
        }
    }

    /// The positions from the smaller end up to the greater one.
    pub fn sorted_range(self) -> (res: std::ops::Range<Idx>)
        ensures
            res.start == Idx(self.low()),
            res.end == Idx(self.high()),
    {
        let (a, b) = self.sorted();
        a..b
    }

    /// `sorted_range`, in plain numbers.
    pub fn sorted_range_usize(self) -> (res: std::ops::Range<usize>)
        ensures
            res.start == self.low(),
            res.end == self.high(),
    {
        let (a, b) = self.sorted();
        usize::from(a)..usize::from(b)
    }

    /// Collapse anchor to the cursor
    pub fn collapsed(self) -> (res: Self)
        ensures
            res == (Selection { anchor: self.cursor, cursor: self.cursor }),
    {
        Selection { cursor: self.cursor, anchor: self.cursor }
    }

    /// Swap anchor and cursor
    pub fn reversed(self) -> (res: Self)
        ensures
            res == (Selection { anchor: self.cursor, cursor: self.anchor }),
    {
        Selection { anchor: self.cursor, cursor: self.anchor }
    }
}

} // verus!
