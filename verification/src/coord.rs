//! Coordinates in a text: a line and a column on it.

use crate::idx::{clamped, Idx};
use crate::lines::{
    last_line, lemma_line_bounds, lemma_line_of_bounds, lemma_line_of_position, lemma_line_start,
    lemma_position_on_line, line_end, line_of, line_start,
};
use crate::rope::rope_chars;
use ropey::Rope;
use vstd::prelude::*;

verus! {

/// A line and a column on it, both counted from zero.
pub struct Pos {
    pub line: int,
    pub column: int,
}

impl Pos {
    /// Whether the line and the column are numbers that count something.
    pub open spec fn valid(self) -> bool {
        self.line >= 0 && self.column >= 0
    }
}

/// A coordinate that lies in the text.
#[derive(Default, Debug, Clone, Copy, PartialEq, Eq, PartialOrd, Ord, Hash, Structural)]
pub struct Coord {
    pub line: usize,
    pub column: usize,
}

/// A coordinate that may lie past the end of its line, or on a line past the
/// last one.
///
/// A cursor that moves up and down keeps its column this way while it crosses
/// shorter lines.
#[derive(Default, Debug, Clone, Copy, PartialEq, Eq, PartialOrd, Ord, Hash, Structural)]
pub struct CoordUnaligned {
    pub line: usize,
    pub column: usize,
}

impl View for Coord {
    type V = Pos;

    open spec fn view(&self) -> Pos {
        Pos { line: self.line as int, column: self.column as int }
    }
}

impl View for CoordUnaligned {
    type V = Pos;

    open spec fn view(&self) -> Pos {
        Pos { line: self.line as int, column: self.column as int }
    }
}

/// The line that a coordinate falls on: its own, or the last one if the text
/// has no such line.
pub open spec fn aligned_line(text: Seq<char>, pos: Pos) -> int {
    if pos.line <= last_line(text) {
        pos.line
    } else {
        last_line(text)
    }
}

/// The position that a coordinate falls on: the one at its column, or the end
/// of the line if the line is shorter.
pub open spec fn aligned_idx(text: Seq<char>, pos: Pos) -> int {
    let line = aligned_line(text, pos);
    if line_start(text, line) + pos.column <= line_end(text, line) {
        line_start(text, line) + pos.column
    } else {
        line_end(text, line)
    }
}

/// The line and the column of the position `idx`.
pub open spec fn coord_at(text: Seq<char>, idx: int) -> Pos {
    Pos { line: line_of(text, idx), column: idx - line_start(text, line_of(text, idx)) }
}

/// The coordinate of the position that a coordinate falls on.
pub open spec fn aligned(text: Seq<char>, pos: Pos) -> Pos {
    coord_at(text, aligned_idx(text, pos))
}

/// What lies `n` chars after a coordinate, or the end of the text.
pub open spec fn forward_by(text: Seq<char>, pos: Pos, n: int) -> Pos {
    coord_at(text, clamped(text, aligned_idx(text, pos) + n))
}

/// What lies one char before a coordinate, or the start of the text.
pub open spec fn backward_from(text: Seq<char>, pos: Pos) -> Pos {
    let idx = aligned_idx(text, pos);
    coord_at(text, if idx > 0 { idx - 1 } else { 0 })
}

/// The same column one line further down, if there is one.
pub open spec fn down_from(text: Seq<char>, pos: Pos) -> Pos {
    if pos.line < last_line(text) {
        Pos { line: pos.line + 1, ..pos }
    } else {
        pos
    }
}

/// The same column one line further up, if there is one.
pub open spec fn up_from(pos: Pos) -> Pos {
    if pos.line > 0 {
        Pos { line: pos.line - 1, ..pos }
    } else {
        pos
    }
}

/// The start of the next line, or on the last line the end of the text.
pub open spec fn past_line_end(text: Seq<char>, pos: Pos) -> Pos {
    coord_at(text, line_start(text, aligned_line(text, pos) + 1))
}

/// The start of the line.
pub open spec fn line_start_of(text: Seq<char>, pos: Pos) -> Pos {
    Pos { line: aligned_line(text, pos), column: 0 }
}

/// Whether one coordinate comes before another: on an earlier line, or on the
/// same line at a smaller column.
pub open spec fn comes_before(a: Pos, b: Pos) -> bool {
    a.line < b.line || (a.line == b.line && a.column < b.column)
}

/// The chars that separate words: those with the Unicode property
/// `White_Space`, among them all line breaks.
pub open spec fn is_space(c: char) -> bool {
    ||| '\u{9}' <= c <= '\u{d}'
    ||| c == '\u{20}'
    ||| c == '\u{85}'
    ||| c == '\u{a0}'
    ||| c == '\u{1680}'
    ||| '\u{2000}' <= c <= '\u{200a}'
    ||| c == '\u{2028}'
    ||| c == '\u{2029}'
    ||| c == '\u{202f}'
    ||| c == '\u{205f}'
    ||| c == '\u{3000}'
}

/// Where the run of spaces that begins at `idx` ends, or for `space` false
/// the run of other chars.
pub open spec fn run_end(text: Seq<char>, idx: int, space: bool) -> int
    decreases text.len() - idx,
{
    if 0 <= idx < text.len() && is_space(text[idx]) == space {
        run_end(text, idx + 1, space)
    } else {
        idx
    }
}

/// Where the run of spaces that ends at `idx` begins, or for `space` false the
/// run of other chars.
pub open spec fn run_start(text: Seq<char>, idx: int, space: bool) -> int
    decreases idx,
{
    if 0 < idx <= text.len() && is_space(text[idx - 1]) == space {
        run_start(text, idx - 1, space)
    } else {
        idx
    }
}

/// The start of the word after the one at `idx`.
pub open spec fn next_word(text: Seq<char>, idx: int) -> int {
    run_end(text, run_end(text, idx, false), true)
}

/// The start of the word before `idx`.
pub open spec fn previous_word(text: Seq<char>, idx: int) -> int {
    run_start(text, run_start(text, idx, true), false)
}

/// A coordinate falls on a position of the text.
pub proof fn lemma_aligned_idx_bounds(text: Seq<char>, pos: Pos)
    requires
        pos.valid(),
    ensures
        0 <= aligned_line(text, pos) <= last_line(text),
        line_start(text, aligned_line(text, pos)) <= aligned_idx(text, pos) <= line_end(
            text,
            aligned_line(text, pos),
        ),
        0 <= aligned_idx(text, pos) <= text.len(),
{
    lemma_line_of_bounds(text, text.len() as int);
    lemma_line_bounds(text, aligned_line(text, pos));
}

/// The position that a coordinate falls on lies on the line it falls on.
pub proof fn lemma_aligned_line(text: Seq<char>, pos: Pos)
    requires
        pos.valid(),
    ensures
        line_of(text, aligned_idx(text, pos)) == aligned_line(text, pos),
        aligned(text, pos).line == aligned_line(text, pos),
        0 <= aligned(text, pos).column <= pos.column,
{
    lemma_aligned_idx_bounds(text, pos);
    lemma_position_on_line(text, aligned_line(text, pos), aligned_idx(text, pos));
    lemma_line_bounds(text, aligned_line(text, pos));
}

/// The coordinate of a position is one of the text, and falls on that
/// position.
pub proof fn lemma_coord_at(text: Seq<char>, idx: int)
    requires
        0 <= idx <= text.len(),
    ensures
        coord_at(text, idx).valid(),
        coord_at(text, idx).line <= idx,
        coord_at(text, idx).column <= idx,
        aligned_idx(text, coord_at(text, idx)) == idx,
{
    lemma_line_of_bounds(text, idx);
    lemma_line_of_position(text, idx);
    lemma_line_bounds(text, line_of(text, idx));
}

/// A coordinate falls on the same position before and after it is aligned,
/// and aligning it once more changes nothing.
pub proof fn lemma_aligned_is_aligned(text: Seq<char>, pos: Pos)
    requires
        pos.valid(),
    ensures
        aligned_idx(text, aligned(text, pos)) == aligned_idx(text, pos),
        aligned(text, aligned(text, pos)) == aligned(text, pos),
{
    lemma_aligned_idx_bounds(text, pos);
    lemma_coord_at(text, aligned_idx(text, pos));
}

impl Coord {
    /// The position at the coordinate.  A coordinate past the end of its line
    /// stands for the end of the line, and one on a line past the last one
    /// for a position on the last one.
    pub fn to_idx(self, text: &Rope) -> (res: Idx)
        ensures
            res.0 == aligned_idx(rope_chars(*text), self@),
    {
        let ghost chars = rope_chars(*text);
        proof {
            lemma_aligned_idx_bounds(chars, self@);
            lemma_line_of_bounds(chars, chars.len() as int);
        }
        let len: usize = text.len_chars();
        let last: usize = text.char_to_line(len);
        let line: usize = if self.line <= last {
            self.line
        } else {
            last
        };
        proof {
            lemma_line_bounds(chars, line as int);
        }
        let start: usize = text.line_to_char(line);
        let end: usize = if line < last {
            text.line_to_char(line + 1) - 1
        } else {
            len
        };
        if self.column <= end - start {
            Idx(start + self.column)
        } else {
            Idx(end)
        }
    }
}

impl From<Coord> for CoordUnaligned {
    fn from(coord: Coord) -> (res: Self) {
        CoordUnaligned { line: coord.line, column: coord.column }
    }
}

impl vstd::std_specs::convert::FromSpecImpl<Coord> for CoordUnaligned {
    open spec fn obeys_from_spec() -> bool {
        true
    }

    open spec fn from_spec(coord: Coord) -> Self {
        CoordUnaligned { line: coord.line, column: coord.column }
    }
}

impl CoordUnaligned {
    /// The position that the coordinate falls on.
    pub fn to_idx(self, text: &Rope) -> (res: Idx)
        ensures
            res.0 == aligned_idx(rope_chars(*text), self@),
    {
        Coord { line: self.line, column: self.column }.to_idx(text)
    }

    /// The coordinate of the position that this one falls on.
    pub fn align(self, text: &Rope) -> (res: Coord)
        ensures
            res@ == aligned(rope_chars(*text), self@),
    {
        proof {
            lemma_aligned_idx_bounds(rope_chars(*text), self@);
        }
        self.to_idx(text).to_coord(text)
    }

    /// `align`, with a result that may leave the text again.
    pub fn trim(self, text: &Rope) -> (res: Self)
        ensures
            res@ == aligned(rope_chars(*text), self@),
    {
        CoordUnaligned::from(self.align(text))
    }

    /// `n` chars further on, or the end of the text.
    pub fn forward_n(self, n: usize, text: &Rope) -> (res: Self)
        ensures
            res@ == forward_by(rope_chars(*text), self@, n as int),
    {
        proof {
            lemma_aligned_idx_bounds(rope_chars(*text), self@);
        }
        let idx: usize = self.to_idx(text).0;
        let len: usize = text.len_chars();
        if n <= len - idx {
            CoordUnaligned::from(Idx(idx + n).to_coord(text))
        } else {
            CoordUnaligned::from(Idx(len).to_coord(text))
        }
    }

    /// One char further on, or the end of the text.
    pub fn forward(self, text: &Rope) -> (res: Self)
        ensures
            res@ == forward_by(rope_chars(*text), self@, 1),
    {
        self.forward_n(1, text)
    }

    /// One char back, or the start of the text.
    pub fn backward(self, text: &Rope) -> (res: Self)
        ensures
            res@ == backward_from(rope_chars(*text), self@),
    {
        proof {
            lemma_aligned_idx_bounds(rope_chars(*text), self@);
        }
        let idx: usize = self.to_idx(text).0;
        CoordUnaligned::from(Idx(if idx > 0 { idx - 1 } else { 0 }).to_coord(text))
    }

    /// One line down, at the same column.
    pub fn down_unaligned(self, text: &Rope) -> (res: Self)
        ensures
            res@ == down_from(rope_chars(*text), self@),
    {
        let last: usize = text.char_to_line(text.len_chars());
        if self.line < last {
            CoordUnaligned { line: self.line + 1, column: self.column }
        } else {
            self
        }
    }

    /// One line up, at the same column.
    pub fn up_unaligned(self, _text: &Rope) -> (res: Self)
        ensures
            res@ == up_from(self@),
    {
        if self.line > 0 {
            CoordUnaligned { line: self.line - 1, column: self.column }
        } else {
            self
        }
    }

    /// The start of the next line, or on the last line the end of the text.
    pub fn forward_past_line_end(self, text: &Rope) -> (res: Self)
        ensures
            res@ == past_line_end(rope_chars(*text), self@),
    {
        let ghost chars = rope_chars(*text);
        proof {
            lemma_line_of_bounds(chars, chars.len() as int);
            lemma_line_start(chars, aligned_line(chars, self@) + 1);
        }
        let len: usize = text.len_chars();
        let last: usize = text.char_to_line(len);
        if self.line < last {
            CoordUnaligned::from(Idx(text.line_to_char(self.line + 1)).to_coord(text))
        } else {
            CoordUnaligned::from(Idx(len).to_coord(text))
        }
    }

    /// The start of the line.
    pub fn backward_to_line_start(self, text: &Rope) -> (res: Self)
        ensures
            res@ == line_start_of(rope_chars(*text), self@),
    {
        let last: usize = text.char_to_line(text.len_chars());
        CoordUnaligned { line: if self.line <= last { self.line } else { last }, column: 0 }
    }

    /// Where the cursor stands, and the start of the next word.
    pub fn forward_word(self, text: &Rope) -> (res: (Self, Self))
        ensures
            res.0@ == aligned(rope_chars(*text), self@),
            res.1@ == coord_at(
                rope_chars(*text),
                next_word(rope_chars(*text), aligned_idx(rope_chars(*text), self@)),
            ),
    {
        proof {
            lemma_aligned_idx_bounds(rope_chars(*text), self@);
        }
        let idx: usize = self.to_idx(text).0;
        let end: usize = skip_forward(text, skip_forward(text, idx, false), true);
        (self.trim(text), CoordUnaligned::from(Idx(end).to_coord(text)))
    }

    /// Where the cursor stands, and the start of the word before it.
    pub fn backward_word(self, text: &Rope) -> (res: (Self, Self))
        ensures
            res.0@ == aligned(rope_chars(*text), self@),
            res.1@ == coord_at(
                rope_chars(*text),
                previous_word(rope_chars(*text), aligned_idx(rope_chars(*text), self@)),
            ),
    {
        proof {
            lemma_aligned_idx_bounds(rope_chars(*text), self@);
        }
        let idx: usize = self.to_idx(text).0;
        let start: usize = skip_backward(text, skip_backward(text, idx, true), false);
        (self.trim(text), CoordUnaligned::from(Idx(start).to_coord(text)))
    }
}

/// The earlier one of two coordinates.
pub fn earlier(a: CoordUnaligned, b: CoordUnaligned) -> (res: CoordUnaligned)
    ensures
        res == if comes_before(b@, a@) { b } else { a },
{
    if b.line < a.line || (b.line == a.line && b.column < a.column) {
        b
    } else {
        a
    }
}

/// Whether a char separates words.
pub fn is_whitespace(c: char) -> (res: bool)
    ensures
        res == is_space(c),
{
    ('\u{9}' <= c && c <= '\u{d}') || c == '\u{20}' || c == '\u{85}' || c == '\u{a0}' || c
        == '\u{1680}' || ('\u{2000}' <= c && c <= '\u{200a}') || c == '\u{2028}' || c == '\u{2029}'
        || c == '\u{202f}' || c == '\u{205f}' || c == '\u{3000}'
}

fn skip_forward(text: &Rope, from: usize, space: bool) -> (res: usize)
    requires
        from <= rope_chars(*text).len(),
    ensures
        res == run_end(rope_chars(*text), from as int, space),
        from <= res <= rope_chars(*text).len(),
{
    let len: usize = text.len_chars();
    let mut idx: usize = from;
    while idx < len && is_whitespace(text.char(idx)) == space
        invariant
            len == rope_chars(*text).len(),
            from <= idx <= len,
            run_end(rope_chars(*text), from as int, space) == run_end(
                rope_chars(*text),
                idx as int,
                space,
            ),
        decreases len - idx,
    {
        idx = idx + 1;
    }
    idx
}

fn skip_backward(text: &Rope, from: usize, space: bool) -> (res: usize)
    requires
        from <= rope_chars(*text).len(),
    ensures
        res == run_start(rope_chars(*text), from as int, space),
        res <= from,
{
    let mut idx: usize = from;
    while idx > 0 && is_whitespace(text.char(idx - 1)) == space
        invariant
            idx <= from <= rope_chars(*text).len(),
            run_start(rope_chars(*text), from as int, space) == run_start(
                rope_chars(*text),
                idx as int,
                space,
            ),
        decreases idx,
    {
        idx = idx - 1;
    }
    idx
}

} // verus!
