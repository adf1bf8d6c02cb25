//! Where the cursors of a line go when a char is typed at all of them.

use crate::coord::{aligned, aligned_idx, coord_at, lemma_coord_at};
use crate::edits::{after_insert, insertions, lemma_cursors, typed, typed_spans, BufferModel};
use crate::laws::{lemma_same_coord, lemma_same_lines, same_seam};
use crate::lines::{
    ends_line, is_line_break, last_line, lemma_line_of_bounds, lemma_line_of_monotonic,
    lemma_line_of_position, lemma_line_start, line_end, line_of, line_start,
};
use crate::order::{back_to_front, edited_before, lemma_back_to_front, lemma_order_distinct};
use crate::rope::spliced;
use crate::selection::Span;
use vstd::prelude::*;

verus! {

/// Putting a char in that ends no line shifts what comes after it, and leaves
/// all on its line.
proof fn lemma_lines_shifted(text: Seq<char>, at: int, ch: char, y: int)
    requires
        0 <= at <= y <= text.len(),
        !is_line_break(ch),
        same_seam(text, spliced(text, at, seq![ch]), at),
    ensures
        line_of(spliced(text, at, seq![ch]), y + 1) == line_of(text, y),
    decreases y - at,
{
    let new = spliced(text, at, seq![ch]);
    if y == at {
        assert(text.take(at) =~= new.take(at));
        lemma_same_lines(text, new, at, at);
        assert(new[at] == ch);
    } else {
        lemma_lines_shifted(text, at, ch, y - 1);
        assert(new[y] == text[y - 1]);
        if y < text.len() {
            assert(new[y + 1] == text[y]);
        }
        assert(ends_line(new, y) == ends_line(text, y - 1));
    }
}

/// Putting a char in that ends no line makes its line longer by one.
proof fn lemma_line_grows(text: Seq<char>, at: int, ch: char)
    requires
        0 <= at <= text.len(),
        !is_line_break(ch),
        same_seam(text, spliced(text, at, seq![ch]), at),
    ensures
        ({
            let new = spliced(text, at, seq![ch]);
            let line = line_of(text, at);
            &&& line_of(new, at) == line
            &&& last_line(new) == last_line(text)
            &&& line_start(new, line) == line_start(text, line)
            &&& line_end(new, line) == line_end(text, line) + 1
        }),
{
    let new = spliced(text, at, seq![ch]);
    let line = line_of(text, at);
    assert(text.take(at) =~= new.take(at));
    lemma_same_lines(text, new, at, at);
    lemma_same_coord(text, new, at);
    lemma_lines_shifted(text, at, ch, text.len() as int);
    lemma_line_of_bounds(text, at);
    if line < last_line(text) {
        let next = line_start(text, line + 1);
        lemma_line_start(text, line + 1);
        lemma_line_start(new, line + 1);
        if next <= at {
            lemma_line_of_monotonic(text, next, at);
        }
        lemma_lines_shifted(text, at, ch, next);
        let found = line_start(new, line + 1);
        if found > next + 1 {
            assert(line_of(new, next + 1) < line + 1);
        }
        if found < next + 1 {
            if found <= at {
                lemma_same_lines(text, new, at, found);
                lemma_line_of_monotonic(text, found, at);
            } else {
                lemma_lines_shifted(text, at, ch, found - 1);
                assert(line_of(text, found - 1) < line + 1);
            }
        }
    }
}

/// A coordinate on the line of a char that was put in before it falls on the
/// same number of chars.
proof fn lemma_column_kept(text: Seq<char>, at: int, ch: char, x: int)
    requires
        0 <= at <= x <= text.len(),
        line_of(text, x) == line_of(text, at),
        !is_line_break(ch),
        same_seam(text, spliced(text, at, seq![ch]), at),
    ensures
        aligned_idx(spliced(text, at, seq![ch]), coord_at(text, x)) == x,
{
    lemma_line_grows(text, at, ch);
    lemma_line_of_position(text, x);
    lemma_line_of_bounds(text, x);
}

/// Whether all cursors lie in the text, on the same line, and a char typed
/// there ends no line and breaks no CRLF.
pub open spec fn on_one_line(m: BufferModel, ch: char) -> bool {
    &&& m.valid()
    &&& !is_line_break(ch)
    &&& forall|i: int|
        0 <= i < m.spans.len() ==> (#[trigger] m.spans[i]).cursor == aligned(
            m.text,
            m.spans[i].cursor,
        )
    &&& forall|i: int, j: int|
        0 <= i < m.spans.len() && 0 <= j < m.spans.len() ==> line_of(
            m.text,
            #[trigger] m.cursors()[i],
        ) == line_of(m.text, #[trigger] m.cursors()[j])
    &&& forall|i: int|
        0 <= i < m.spans.len() ==> same_seam(
            m.text,
            spliced(m.text, #[trigger] m.cursors()[i], seq![ch]),
            m.cursors()[i],
        )
}

/// The text after `k` steps of typing.
spec fn typed_text(m: BufferModel, ch: char, k: int) -> Seq<char> {
    insertions(m.text, m.cursors(), typed(ch, m.spans.len()), k)
}

/// Where the cursor that was typed at in step `j` is after `k` steps.
spec fn typed_cursor(m: BufferModel, k: int, j: int) -> int {
    m.cursors()[back_to_front(m.cursors())[j]] + (k - j)
}

/// Whether after `k` steps the text up to the cursors still to come is as it
/// was, and each cursor that was typed at stands right after a char that was
/// typed.
spec fn settled(m: BufferModel, ch: char, k: int) -> bool {
    let order = back_to_front(m.cursors());
    let text = typed_text(m, ch, k);
    let spans = typed_spans(m, ch, k);
    &&& text.len() == m.text.len() + k
    &&& spans.len() == m.spans.len()
    &&& k < order.len() ==> {
        let at = m.cursors()[order[k]];
        &&& text.take(at) == m.text.take(at)
        &&& at > 0 ==> ends_line(text, at - 1) == ends_line(m.text, at - 1)
        &&& same_seam(text, spliced(text, at, seq![ch]), at)
    }
    &&& forall|j: int|
        k <= j < order.len() ==> spans[#[trigger] order[j]] == m.spans[order[j]]
    &&& forall|j: int|
        0 <= j < k ==> {
            let x = typed_cursor(m, k, j);
            let pos = coord_at(text, x);
            &&& 0 < x <= text.len()
            &&& text[x - 1] == ch
            &&& line_of(text, x) == line_of(m.text, m.cursors()[order[j]])
            &&& spans[#[trigger] order[j]] == Span { anchor: pos, cursor: pos }
        }
}

/// The seam before the next cursor is as it was.
proof fn lemma_next_seam(m: BufferModel, ch: char, text: Seq<char>, at: int, next: int)
    requires
        0 <= next <= at <= m.text.len(),
        at <= text.len(),
        text.take(at) == m.text.take(at),
        same_seam(m.text, spliced(m.text, next, seq![ch]), next),
    ensures
        ({
            let new = spliced(text, at, seq![ch]);
            &&& new.take(next) == m.text.take(next)
            &&& next > 0 ==> ends_line(new, next - 1) == ends_line(m.text, next - 1)
            &&& same_seam(new, spliced(new, next, seq![ch]), next)
        }),
{
    let new = spliced(text, at, seq![ch]);
    let first = spliced(m.text, next, seq![ch]);
    let again = spliced(new, next, seq![ch]);
    assert forall|i: int| 0 <= i < at implies #[trigger] new[i] == m.text[i] by {
        assert(text.take(at)[i] == m.text.take(at)[i]);
    }
    assert(new.take(next) =~= m.text.take(next));
    if next > 0 {
        assert(new[next - 1] == m.text[next - 1]);
        assert(first[next - 1] == m.text[next - 1]);
        assert(again[next - 1] == m.text[next - 1]);
        assert(first[next] == ch && again[next] == ch);
        if next < at {
            assert(new[next] == m.text[next]);
        } else {
            assert(new[next] == ch);
        }
    }
}

proof fn lemma_settled(m: BufferModel, ch: char, k: int)
    requires
        on_one_line(m, ch),
        0 <= k <= m.spans.len(),
    ensures
        settled(m, ch, k),
    decreases k,
{
    let order = back_to_front(m.cursors());
    lemma_back_to_front(m.cursors());
    lemma_cursors(m);
    if k == 0 {
        if order.len() > 0 {
            assert(0 <= order[0] < m.cursors().len());
            assert(same_seam(
                m.text,
                spliced(m.text, m.cursors()[order[0]], seq![ch]),
                m.cursors()[order[0]],
            ));
        }
    } else {
        lemma_settled(m, ch, k - 1);
        lemma_settled_step(m, ch, k - 1);
    }
}

proof fn lemma_settled_step(m: BufferModel, ch: char, k: int)
    requires
        on_one_line(m, ch),
        0 <= k < m.spans.len(),
        settled(m, ch, k),
    ensures
        settled(m, ch, k + 1),
{
    let order = back_to_front(m.cursors());
    lemma_back_to_front(m.cursors());
    lemma_cursors(m);
    let text = typed_text(m, ch, k);
    let new = typed_text(m, ch, k + 1);
    let before = typed_spans(m, ch, k);
    let after = typed_spans(m, ch, k + 1);
    let p = order[k];
    let at = m.cursors()[p];
    assert(0 <= p < m.cursors().len());
    assert(new == spliced(text, at, seq![ch]));
    let done = order.take(k + 1);
    assert(same_seam(m.text, text, at));
    lemma_same_lines(m.text, text, at, at);
    lemma_same_coord(m.text, text, at);

    if k + 1 < order.len() {
        let q = order[k + 1];
        assert(0 <= q < m.cursors().len());
        assert(edited_before(m.cursors(), order[k], order[k + 1]));
        assert(same_seam(
            m.text,
            spliced(m.text, m.cursors()[q], seq![ch]),
            m.cursors()[q],
        ));
        lemma_next_seam(m, ch, text, at, m.cursors()[q]);
    }

    assert forall|j: int| k + 1 <= j < order.len() implies after[#[trigger] order[j]]
        == m.spans[order[j]] by {
        if done.contains(order[j]) {
            let i = choose|i: int| 0 <= i < done.len() && done[i] == order[j];
            lemma_order_distinct(m.cursors(), order, i, j);
        }
        assert(0 <= order[j] < m.cursors().len());
        assert(before[order[j]] == m.spans[order[j]]);
    }

    assert forall|j: int| 0 <= j < k + 1 implies {
        let x = typed_cursor(m, k + 1, j);
        let pos = coord_at(new, x);
        &&& 0 < x <= new.len()
        &&& new[x - 1] == ch
        &&& line_of(new, x) == line_of(m.text, m.cursors()[order[j]])
        &&& after[#[trigger] order[j]] == Span { anchor: pos, cursor: pos }
    } by {
        let x = typed_cursor(m, k, j);
        assert(0 <= order[j] < m.cursors().len());
        assert(done[j] == order[j]);
        assert(done.contains(order[j]));
        assert(line_of(m.text, m.cursors()[order[j]]) == line_of(m.text, m.cursors()[p]));
        if j == k {
            assert(m.spans[p].cursor == coord_at(text, at));
            assert(new[at] == ch);
        } else {
            assert(edited_before(m.cursors(), order[j], order[k]));
            let pos = coord_at(text, x);
            assert(before[order[j]] == Span { anchor: pos, cursor: pos });
            assert(new[x] == text[x - 1]);
        }
        lemma_column_kept(text, at, ch, x);
        lemma_lines_shifted(text, at, ch, x);
    }
}

/// Typing at several cursors of a line leaves each cursor right after a char
/// that was typed, with nothing selected: it moves by one char for itself, and
/// by one for each cursor that is typed at after it.
pub proof fn law_typed_on_one_line(m: BufferModel, ch: char)
    requires
        on_one_line(m, ch),
    ensures
        ({
            let new = after_insert(m, ch);
            let order = back_to_front(m.cursors());
            forall|j: int|
                0 <= j < m.spans.len() ==> {
                    let i = #[trigger] order[j];
                    &&& new.cursors()[i] == m.cursors()[i] + (m.spans.len() - j)
                    &&& new.text[new.cursors()[i] - 1] == ch
                    &&& new.spans[i].anchor == new.spans[i].cursor
                }
        }),
{
    let new = after_insert(m, ch);
    let n = m.spans.len() as int;
    let order = back_to_front(m.cursors());
    lemma_back_to_front(m.cursors());
    lemma_settled(m, ch, n);
    assert forall|j: int| 0 <= j < m.spans.len() implies {
        let i = #[trigger] order[j];
        &&& new.cursors()[i] == m.cursors()[i] + (m.spans.len() - j)
        &&& new.text[new.cursors()[i] - 1] == ch
        &&& new.spans[i].anchor == new.spans[i].cursor
    } by {
        assert(0 <= order[j] < m.cursors().len());
        let x = typed_cursor(m, n, j);
        let pos = coord_at(new.text, x);
        assert(new.spans[order[j]] == Span { anchor: pos, cursor: pos });
        lemma_coord_at(new.text, x);
    }
}

} // verus!
