//! Lines of a text.
//!
//! A text is a sequence of chars.  The start of the text and the positions
//! right after a line break are the starts of its lines, and a line break
//! belongs to the line that it ends.  A text of `n` chars has the `n + 1`
//! positions `0..=n`.

use vstd::prelude::*;

verus! {

/// The chars that end a line: LF, VT, FF, CR, NEL, and the Unicode line and
/// paragraph separators.
pub open spec fn is_line_break(c: char) -> bool {
    ||| '\u{a}' <= c <= '\u{d}'
    ||| c == '\u{85}'
    ||| c == '\u{2028}'
    ||| c == '\u{2029}'
}

/// Whether a line ends right after the char at `i`.  A CR followed by an LF
/// ends no line: the pair is one line break, and its LF ends the line.
pub open spec fn ends_line(text: Seq<char>, i: int) -> bool {
    &&& 0 <= i < text.len()
    &&& is_line_break(text[i])
    &&& !(text[i] == '\r' && i + 1 < text.len() && text[i + 1] == '\n')
}

/// The line that the position `idx` lies on: the number of lines that end
/// before it.
pub open spec fn line_of(text: Seq<char>, idx: int) -> int
    decreases idx,
{
    if idx <= 0 {
        0
    } else if ends_line(text, idx - 1) {
        line_of(text, idx - 1) + 1
    } else {
        line_of(text, idx - 1)
    }
}

/// The last line of the text.
pub open spec fn last_line(text: Seq<char>) -> int {
    line_of(text, text.len() as int)
}

/// The first position from `from` on that lies on `line` or below it, or the
/// end of the text if there is none.
pub open spec fn first_on_line(text: Seq<char>, line: int, from: int) -> int
    decreases text.len() - from,
{
    if from >= text.len() || line_of(text, from) >= line {
        from
    } else {
        first_on_line(text, line, from + 1)
    }
}

/// The first position of `line`, or the end of the text if there is no such
/// line.
pub open spec fn line_start(text: Seq<char>, line: int) -> int {
    first_on_line(text, line, 0)
}

/// The last position of `line`: the one before its last char, or on the last
/// line the end of the text.
pub open spec fn line_end(text: Seq<char>, line: int) -> int {
    if line < last_line(text) {
        line_start(text, line + 1) - 1
    } else {
        text.len() as int
    }
}

/// The chars of `line`, its line break included.
pub open spec fn line_chars(text: Seq<char>, line: int) -> Seq<char> {
    text.subrange(line_start(text, line), line_start(text, line + 1))
}

/// The line of a position never lies above that of an earlier one, nor
/// further below it than the positions are apart.
pub proof fn lemma_line_of_monotonic(text: Seq<char>, a: int, b: int)
    requires
        0 <= a <= b,
    ensures
        line_of(text, a) <= line_of(text, b) <= line_of(text, a) + (b - a),
    decreases b,
{
    if a < b {
        lemma_line_of_monotonic(text, a, b - 1);
    }
}

/// Where the line of a position lies: from the first line to the last one.
pub proof fn lemma_line_of_bounds(text: Seq<char>, idx: int)
    requires
        0 <= idx <= text.len(),
    ensures
        0 <= line_of(text, idx) <= last_line(text),
        line_of(text, idx) <= idx,
{
    lemma_line_of_monotonic(text, 0, idx);
    lemma_line_of_monotonic(text, idx, text.len() as int);
}

proof fn lemma_first_on_line(text: Seq<char>, line: int, from: int)
    requires
        0 <= from <= text.len(),
        from > 0 ==> line_of(text, from - 1) < line,
        line >= 0,
    ensures
        from <= first_on_line(text, line, from) <= text.len(),
        line <= last_line(text) ==> line_of(text, first_on_line(text, line, from)) == line,
        line > last_line(text) ==> first_on_line(text, line, from) == text.len(),
        forall|j: int|
            from <= j < first_on_line(text, line, from) ==> #[trigger] line_of(text, j) < line,
    decreases text.len() - from,
{
    if from >= text.len() {
    } else if line_of(text, from) >= line {
        lemma_line_of_bounds(text, from);
    } else {
        lemma_first_on_line(text, line, from + 1);
    }
}

/// `line_start` is the first position that lies on the line.
pub proof fn lemma_line_start(text: Seq<char>, line: int)
    requires
        0 <= line,
    ensures
        0 <= line_start(text, line) <= text.len(),
        line <= last_line(text) ==> line_of(text, line_start(text, line)) == line,
        line > last_line(text) ==> line_start(text, line) == text.len(),
        forall|j: int|
            0 <= j < line_start(text, line) ==> #[trigger] line_of(text, j) < line,
{
    lemma_first_on_line(text, line, 0);
}

/// A position lies between the start and the end of its line.
pub proof fn lemma_line_of_position(text: Seq<char>, idx: int)
    requires
        0 <= idx <= text.len(),
    ensures
        line_start(text, line_of(text, idx)) <= idx <= line_end(text, line_of(text, idx)),
{
    let line = line_of(text, idx);
    lemma_line_of_bounds(text, idx);
    lemma_line_start(text, line);
    if line < last_line(text) {
        lemma_line_start(text, line + 1);
        if idx >= line_start(text, line + 1) {
            lemma_line_of_monotonic(text, line_start(text, line + 1), idx);
        }
    }
}

/// Every position from the start of a line to its end lies on that line.
pub proof fn lemma_position_on_line(text: Seq<char>, line: int, idx: int)
    requires
        0 <= line <= last_line(text),
        line_start(text, line) <= idx <= line_end(text, line),
    ensures
        0 <= idx <= text.len(),
        line_of(text, idx) == line,
{
    lemma_line_start(text, line);
    lemma_line_of_monotonic(text, line_start(text, line), idx);
    if line < last_line(text) {
        lemma_line_start(text, line + 1);
    } else {
        lemma_line_of_bounds(text, idx);
    }
}

/// The lines lie one after the other: each starts at or before its end, and
/// starts where the one before it stops.
pub proof fn lemma_line_bounds(text: Seq<char>, line: int)
    requires
        0 <= line <= last_line(text),
    ensures
        0 <= line_start(text, line) <= line_end(text, line) <= text.len(),
        line_start(text, line) <= line_start(text, line + 1) <= text.len(),
        line_start(text, 0) == 0,
{
    lemma_line_start(text, line);
    lemma_line_start(text, line + 1);
    lemma_line_of_position(text, line_start(text, line));
}

} // verus!
