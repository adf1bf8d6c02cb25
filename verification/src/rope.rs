//! The text of a buffer: `ropey::Rope`, and what the library relies on of it.

use crate::lines::{last_line, line_chars, line_of, line_start};
use ropey::Rope;
use vstd::prelude::*;

verus! {

/// `ropey::Rope`, a text that is cheap to clone and to edit.
#[verifier::external_type_specification]
#[verifier::external_body]
pub struct ExRope(ropey::Rope);

/// The chars of the text that a rope holds.
pub uninterp spec fn rope_chars(rope: Rope) -> Seq<char>;

/// The pieces that a rope stores its text in, first to last.
pub uninterp spec fn rope_chunks(rope: Rope) -> Seq<Seq<char>>;

/// The pieces one after the other.
pub open spec fn joined(pieces: Seq<Seq<char>>) -> Seq<char>
    decreases pieces.len(),
{
    if pieces.len() == 0 {
        Seq::empty()
    } else {
        joined(pieces.drop_last()) + pieces.last()
    }
}

/// The text with `piece` put in at `at`.
pub open spec fn spliced(text: Seq<char>, at: int, piece: Seq<char>) -> Seq<char> {
    text.subrange(0, at) + piece + text.subrange(at, text.len() as int)
}

/// The text without the chars from `start` up to `end`.
pub open spec fn cut(text: Seq<char>, start: int, end: int) -> Seq<char> {
    text.subrange(0, start) + text.subrange(end, text.len() as int)
}

/// `Rope::default` makes an empty rope.
pub assume_specification[ <Rope as Default>::default ]() -> (rope: Rope)
    ensures
        rope_chars(rope) == Seq::<char>::empty(),
;

/// `Rope::clone` makes a rope with the same text, stored in the same pieces.
/// Together they are the text.
pub assume_specification[ <Rope as Clone>::clone ](rope: &Rope) -> (res: Rope)
    ensures
        rope_chars(res) == rope_chars(*rope),
        rope_chunks(res) == rope_chunks(*rope),
        joined(rope_chunks(res)) == rope_chars(res),
;

/// `Rope::len_chars` counts the chars of the text.
pub assume_specification[ Rope::len_chars ](rope: &Rope) -> (n: usize)
    ensures
        n == rope_chars(*rope).len(),
;

/// `Rope::char` returns the char at an index.  It panics on an index that is
/// not in the text.
pub assume_specification[ Rope::char ](rope: &Rope, char_idx: usize) -> (c: char)
    requires
        char_idx < rope_chars(*rope).len(),
    ensures
        c == rope_chars(*rope)[char_idx as int],
;

/// `Rope::char_to_line` counts the lines that end before a position.  It
/// panics on a position past the end of the text.
pub assume_specification[ Rope::char_to_line ](rope: &Rope, char_idx: usize) -> (line: usize)
    requires
        char_idx <= rope_chars(*rope).len(),
    ensures
        line == line_of(rope_chars(*rope), char_idx as int),
;

/// `Rope::line_to_char` returns the position that a line starts at; for the
/// line past the last one that is the end of the text.  It panics on any
/// later line.
pub assume_specification[ Rope::line_to_char ](rope: &Rope, line_idx: usize) -> (idx: usize)
    requires
        line_idx <= last_line(rope_chars(*rope)) + 1,
    ensures
        idx == line_start(rope_chars(*rope), line_idx as int),
;

/// `Rope::insert_char` puts a char in at a position.  It panics on a position
/// past the end of the text.
pub assume_specification[ Rope::insert_char ](rope: &mut Rope, char_idx: usize, ch: char)
    requires
        char_idx <= rope_chars(*old(rope)).len(),
    ensures
        rope_chars(*final(rope)) == spliced(
            rope_chars(*old(rope)),
            char_idx as int,
            seq![ch],
        ),
;

/// `Rope::insert` puts a string in at a position.  It panics on a position
/// past the end of the text.
pub assume_specification[ Rope::insert ](rope: &mut Rope, char_idx: usize, text: &str)
    requires
        char_idx <= rope_chars(*old(rope)).len(),
    ensures
        rope_chars(*final(rope)) == spliced(rope_chars(*old(rope)), char_idx as int, text@),
;

/// `Rope::remove` takes the chars from `start` up to `end` out.  Together the
/// pieces that what is left is stored in are that text.  It panics on a range
/// that ends before it starts, or past the end of the text.
#[verifier::external_body]
pub(crate) fn remove(rope: &mut Rope, start: usize, end: usize)
    requires
        start <= end <= rope_chars(*old(rope)).len(),
    ensures
        rope_chars(*final(rope)) == cut(rope_chars(*old(rope)), start as int, end as int),
        joined(rope_chunks(*final(rope))) == rope_chars(*final(rope)),
{
    rope.remove(start..end)
}

/// `Rope::chunks` hands out the pieces that the text is stored in.  Together
/// they are the text.
#[verifier::external_body]
pub(crate) fn chunks(rope: &Rope) -> (res: Vec<String>)
    ensures
        res@.map_values(|s: String| s@) == rope_chunks(*rope),
        joined(res@.map_values(|s: String| s@)) == rope_chars(*rope),
{
    rope.chunks().map(String::from).collect()
}

/// `Rope::line` returns the chars of a line, its line break included.  It
/// panics on a line past the last one.
#[verifier::external_body]
pub(crate) fn chars_of_line(rope: &Rope, line_idx: usize) -> (res: Vec<char>)
    requires
        line_idx <= last_line(rope_chars(*rope)),
    ensures
        res@ == line_chars(rope_chars(*rope), line_idx as int),
{
    rope.line(line_idx).chars().collect()
}

} // verus!
