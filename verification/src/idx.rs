//! Positions in a text, counted in chars.

use crate::coord::{coord_at, Coord};
use crate::lines::{lemma_line_of_bounds, lemma_line_of_position};
use crate::rope::rope_chars;
use ropey::Rope;
use vstd::prelude::*;

verus! {

/// A position in the text: the number of chars before it.
#[derive(Default, Debug, Clone, Copy, PartialEq, Eq, PartialOrd, Ord, Hash, Structural)]
pub struct Idx(pub usize);

/// The position that an index stands for: one past the end of the text
/// stands for the end.
pub open spec fn clamped(text: Seq<char>, idx: int) -> int {
    if idx <= text.len() {
        idx
    } else {
        text.len() as int
    }
}

impl Idx {
    /// The line and the column of the position.  An index past the end of
    /// the text stands for the end.
    pub fn to_coord(self, text: &Rope) -> (res: Coord)
        ensures
            res@ == coord_at(rope_chars(*text), clamped(rope_chars(*text), self.0 as int)),
    {
        let len: usize = text.len_chars();
        let idx: usize = if self.0 <= len {
            self.0
        } else {
            len
        };
        proof {
            lemma_line_of_bounds(rope_chars(*text), idx as int);
            lemma_line_of_position(rope_chars(*text), idx as int);
        }
        let line: usize = text.char_to_line(idx);
        let start: usize = text.line_to_char(line);
        Coord { line, column: idx - start }
    }
}

impl From<usize> for Idx {
    fn from(idx: usize) -> (res: Self) {
        Idx(idx)
    }
}

impl vstd::std_specs::convert::FromSpecImpl<usize> for Idx {
    open spec fn obeys_from_spec() -> bool {
        true
    }

    open spec fn from_spec(idx: usize) -> Self {
        Idx(idx)
    }
}

impl From<Idx> for usize {
    fn from(idx: Idx) -> (res: Self) {
        idx.0
    }
}

impl vstd::std_specs::convert::FromSpecImpl<Idx> for usize {
    open spec fn obeys_from_spec() -> bool {
        true
    }

    open spec fn from_spec(idx: Idx) -> Self {
        idx.0
    }
}

} // verus!
