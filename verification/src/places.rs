//! What an edit at several places amounts to, whatever the order in which it
//! goes through them.

use crate::edits::{
    after_backspace, after_delete, after_insert, after_paste, before_cursors, insertions,
    is_selected, lemma_cursors, removable, removals, stacked, starts, typed, BufferModel,
};
use crate::order::{back_to_front, edited_before, lemma_back_to_front, lemma_last_place};
use crate::rope::{cut, joined, spliced};
use vstd::prelude::*;

verus! {

/// The points in the order in which they are edited.
pub open spec fn in_edit_order(points: Seq<int>) -> Seq<int> {
    Seq::new(points.len(), |j: int| points[back_to_front(points)[j]])
}

/// The pieces of the points that are `at`, each in front of the ones before
/// it.
pub open spec fn put_at(points: Seq<int>, pieces: Seq<Seq<char>>, at: int) -> Seq<char>
    decreases points.len(),
{
    if points.len() == 0 {
        Seq::empty()
    } else {
        let before = put_at(points.drop_last(), pieces, at);
        if points.last() == at {
            pieces[points.len() - 1] + before
        } else {
            before
        }
    }
}

/// The text from `from` on, with the pieces of each position put in before
/// it.
pub open spec fn woven(
    text: Seq<char>,
    points: Seq<int>,
    pieces: Seq<Seq<char>>,
    from: int,
) -> Seq<char>
    decreases text.len() - from,
{
    if from < text.len() {
        put_at(points, pieces, from) + seq![text[from]] + woven(text, points, pieces, from + 1)
    } else {
        put_at(points, pieces, from)
    }
}

proof fn lemma_put_below(points: Seq<int>, pieces: Seq<Seq<char>>, at: int)
    requires
        forall|i: int| 0 <= i < points.len() ==> #[trigger] points[i] > at,
    ensures
        put_at(points, pieces, at) == Seq::<char>::empty(),
    decreases points.len(),
{
    if points.len() > 0 {
        let rest = points.drop_last();
        assert forall|i: int| 0 <= i < rest.len() implies #[trigger] rest[i] > at by {
            assert(rest[i] == points[i]);
        }
        lemma_put_below(rest, pieces, at);
        assert(points[points.len() - 1] > at);
    }
}

proof fn lemma_woven_same(
    text: Seq<char>,
    a: Seq<int>,
    b: Seq<int>,
    pieces: Seq<Seq<char>>,
    from: int,
)
    requires
        0 <= from <= text.len(),
        forall|at: int|
            from <= at <= text.len() ==> #[trigger] put_at(a, pieces, at) == put_at(b, pieces, at),
    ensures
        woven(text, a, pieces, from) == woven(text, b, pieces, from),
    decreases text.len() - from,
{
    assert(put_at(a, pieces, from) == put_at(b, pieces, from));
    if from < text.len() {
        lemma_woven_same(text, a, b, pieces, from + 1);
    }
}

proof fn lemma_woven_prefix(
    text: Seq<char>,
    points: Seq<int>,
    pieces: Seq<Seq<char>>,
    from: int,
    upto: int,
)
    requires
        0 <= from <= upto <= text.len(),
        forall|i: int| 0 <= i < points.len() ==> #[trigger] points[i] >= upto,
    ensures
        woven(text, points, pieces, from) == text.subrange(from, upto) + woven(
            text,
            points,
            pieces,
            upto,
        ),
    decreases upto - from,
{
    if from < upto {
        lemma_woven_prefix(text, points, pieces, from + 1, upto);
        lemma_put_below(points, pieces, from);
        assert(text.subrange(from, upto) =~= seq![text[from]] + text.subrange(from + 1, upto));
    }
    assert(woven(text, points, pieces, from) =~= text.subrange(from, upto) + woven(
        text,
        points,
        pieces,
        upto,
    ));
}

proof fn lemma_woven_step(text: Seq<char>, points: Seq<int>, pieces: Seq<Seq<char>>, at: int)
    requires
        0 <= at <= text.len(),
        points.len() < pieces.len(),
        forall|i: int| 0 <= i < points.len() ==> #[trigger] points[i] >= at,
    ensures
        spliced(woven(text, points, pieces, 0), at, pieces[points.len() as int]) == woven(
            text,
            points.push(at),
            pieces,
            0,
        ),
{
    let more = points.push(at);
    let piece = pieces[points.len() as int];
    assert(more.drop_last() =~= points);
    lemma_woven_prefix(text, points, pieces, 0, at);
    lemma_woven_prefix(text, more, pieces, 0, at);
    if at < text.len() {
        assert forall|i: int| at < i <= text.len() implies #[trigger] put_at(points, pieces, i)
            == put_at(more, pieces, i) by {}
        lemma_woven_same(text, points, more, pieces, at + 1);
    }
    assert(woven(text, more, pieces, at) =~= piece + woven(text, points, pieces, at));
    assert(spliced(woven(text, points, pieces, 0), at, piece) =~= woven(text, more, pieces, 0));
}

proof fn lemma_inserted_steps(text: Seq<char>, points: Seq<int>, pieces: Seq<Seq<char>>, k: int)
    requires
        0 <= k <= points.len(),
        k <= pieces.len(),
        forall|i: int| 0 <= i < points.len() ==> 0 <= #[trigger] points[i] <= text.len(),
    ensures
        insertions(text, points, pieces, k) == woven(
            text,
            in_edit_order(points).take(k),
            pieces,
            0,
        ),
    decreases k,
{
    let order = back_to_front(points);
    lemma_back_to_front(points);
    let all = in_edit_order(points);
    if k > 0 {
        lemma_inserted_steps(text, points, pieces, k - 1);
        let before = all.take(k - 1);
        let at = points[order[k - 1]];
        assert(0 <= order[k - 1] < points.len());
        assert forall|i: int| 0 <= i < before.len() implies #[trigger] before[i] >= at by {
            assert(edited_before(points, order[i], order[k - 1]));
        }
        assert(all.take(k) =~= before.push(at));
        lemma_woven_step(text, before, pieces, at);
    } else {
        lemma_woven_prefix(text, all.take(0), pieces, 0, text.len() as int);
        assert(woven(text, all.take(0), pieces, 0) =~= text);
    }
}

proof fn lemma_inserted_rest(text: Seq<char>, points: Seq<int>, pieces: Seq<Seq<char>>, k: int)
    requires
        pieces.len() <= k,
    ensures
        insertions(text, points, pieces, k) == insertions(
            text,
            points,
            pieces,
            pieces.len() as int,
        ),
    decreases k,
{
    if k > pieces.len() {
        lemma_inserted_rest(text, points, pieces, k - 1);
    }
}

/// Pasting puts the texts in at the cursors, the first one at the last
/// cursor, and changes nothing else of the text.  Cursors for which there is
/// no text, and texts for which there is no cursor, are passed over.
pub proof fn law_pasted_at_every_cursor(
    m: BufferModel,
    stored: Seq<Seq<Seq<char>>>,
    extend: bool,
)
    requires
        m.valid(),
    ensures
        after_paste(m, stored, extend).text == ({
            let pieces = stored.map_values(|s: Seq<Seq<char>>| stacked(s));
            let points = in_edit_order(m.cursors());
            if pieces.len() < points.len() {
                woven(m.text, points.take(pieces.len() as int), pieces, 0)
            } else {
                woven(m.text, points, pieces, 0)
            }
        }),
{
    let pieces = stored.map_values(|s: Seq<Seq<char>>| stacked(s));
    let points = in_edit_order(m.cursors());
    lemma_cursors(m);
    if pieces.len() < points.len() {
        lemma_inserted_rest(m.text, m.cursors(), pieces, points.len() as int);
        lemma_inserted_steps(m.text, m.cursors(), pieces, pieces.len() as int);
    } else {
        lemma_inserted_steps(m.text, m.cursors(), pieces, points.len() as int);
        assert(points.take(points.len() as int) =~= points);
    }
}

/// The pieces of a text are put in in reversed order.
pub proof fn law_stacked(pieces: Seq<Seq<char>>)
    ensures
        stacked(pieces) == joined(pieces.reverse()),
    decreases pieces.len(),
{
    if pieces.len() > 0 {
        law_stacked(pieces.drop_last());
        let rest = pieces.drop_last().reverse();
        assert(pieces.reverse() =~= seq![pieces.last()] + rest);
        lemma_joined_first(pieces.last(), rest);
    } else {
        assert(pieces.reverse() =~= pieces);
    }
}

proof fn lemma_joined_first(first: Seq<char>, rest: Seq<Seq<char>>)
    ensures
        joined(seq![first] + rest) == first + joined(rest),
    decreases rest.len(),
{
    let all = seq![first] + rest;
    if rest.len() > 0 {
        lemma_joined_first(first, rest.drop_last());
        assert(all.drop_last() =~= seq![first] + rest.drop_last());
        assert(joined(all) =~= first + joined(rest));
    } else {
        assert(all.drop_last() =~= Seq::empty());
        assert(joined(all.drop_last()) =~= Seq::empty());
        assert(joined(all) =~= first + joined(rest));
    }
}

/// How often `at` is among the points.
pub open spec fn times(points: Seq<int>, at: int) -> nat
    decreases points.len(),
{
    if points.len() == 0 {
        0
    } else {
        times(points.drop_last(), at) + (if points.last() == at { 1nat } else { 0nat })
    }
}

/// The text from `from` on, with `ch` put in before each position as often as
/// the position is among the points.
pub open spec fn interleaved(text: Seq<char>, points: Seq<int>, ch: char, from: int) -> Seq<char>
    decreases text.len() - from,
{
    let typed = Seq::new(times(points, from), |i: int| ch);
    if from < text.len() {
        typed + seq![text[from]] + interleaved(text, points, ch, from + 1)
    } else {
        typed
    }
}

proof fn lemma_times_insert(points: Seq<int>, i: int, p: int, at: int)
    requires
        0 <= i <= points.len(),
    ensures
        times(points.insert(i, p), at) == times(points, at) + (if p == at { 1nat } else { 0nat }),
    decreases points.len(),
{
    let all = points.insert(i, p);
    if i == points.len() {
        assert(all.drop_last() =~= points);
    } else {
        assert(all.drop_last() =~= points.drop_last().insert(i, p));
        lemma_times_insert(points.drop_last(), i, p, at);
    }
}

proof fn lemma_times_in_order(points: Seq<int>, at: int)
    ensures
        times(in_edit_order(points), at) == times(points, at),
    decreases points.len(),
{
    if points.len() > 0 {
        let before = points.drop_last();
        let p = points.len() - 1;
        lemma_times_in_order(before, at);
        lemma_back_to_front(before);
        let i = lemma_last_place(points);
        let order = back_to_front(before);
        let all = in_edit_order(points);
        let some = in_edit_order(before);
        assert forall|j: int| 0 <= j < some.len() implies some[j]
            == points[#[trigger] order[j]] by {
            assert(0 <= order[j] < before.len());
        }
        assert(all =~= some.insert(i, points[p]));
        lemma_times_insert(some, i, points[p], at);
    }
}

proof fn lemma_put_typed(points: Seq<int>, ch: char, n: nat, at: int)
    requires
        points.len() <= n,
    ensures
        put_at(points, typed(ch, n), at) == Seq::new(times(points, at), |i: int| ch),
    decreases points.len(),
{
    if points.len() > 0 {
        lemma_put_typed(points.drop_last(), ch, n, at);
    }
    assert(put_at(points, typed(ch, n), at) =~= Seq::new(times(points, at), |i: int| ch));
}

proof fn lemma_woven_typed(text: Seq<char>, points: Seq<int>, ch: char, from: int)
    ensures
        woven(text, in_edit_order(points), typed(ch, points.len()), from) == interleaved(
            text,
            points,
            ch,
            from,
        ),
    decreases text.len() - from,
{
    lemma_put_typed(in_edit_order(points), ch, points.len(), from);
    lemma_times_in_order(points, from);
    if from < text.len() {
        lemma_woven_typed(text, points, ch, from + 1);
    }
}

/// Typing puts the char in once at every cursor, and changes nothing else of
/// the text.
pub proof fn law_typed_at_every_cursor(m: BufferModel, ch: char)
    requires
        m.valid(),
    ensures
        after_insert(m, ch).text == interleaved(m.text, m.cursors(), ch, 0),
{
    let points = m.cursors();
    let n = points.len();
    lemma_cursors(m);
    lemma_inserted_steps(m.text, points, typed(ch, n), n as int);
    assert(in_edit_order(points).take(n as int) =~= in_edit_order(points));
    lemma_woven_typed(m.text, points, ch, 0);
}

/// Whether one of the ranges covers the char at `idx`.
pub open spec fn covered(ranges: Seq<(int, int)>, idx: int) -> bool {
    exists|i: int| 0 <= i < ranges.len() && (#[trigger] ranges[i]).0 <= idx < ranges[i].1
}

/// The chars of the text from `from` on that no range covers.
pub open spec fn kept(text: Seq<char>, ranges: Seq<(int, int)>, from: int) -> Seq<char>
    decreases text.len() - from,
{
    if from >= text.len() {
        Seq::empty()
    } else if covered(ranges, from) {
        kept(text, ranges, from + 1)
    } else {
        seq![text[from]] + kept(text, ranges, from + 1)
    }
}

/// Whether the ranges lie in the text, and no char is covered by two of them.
pub open spec fn apart(text: Seq<char>, ranges: Seq<(int, int)>) -> bool {
    &&& forall|i: int|
        0 <= i < ranges.len() ==> 0 <= (#[trigger] ranges[i]).0 <= ranges[i].1 <= text.len()
    &&& forall|i: int, j: int|
        0 <= i < j < ranges.len() ==> disjoint(#[trigger] ranges[i], #[trigger] ranges[j])
}

/// Whether no char is covered by both ranges.
pub open spec fn disjoint(a: (int, int), b: (int, int)) -> bool {
    a.0 >= a.1 || b.0 >= b.1 || a.1 <= b.0 || b.1 <= a.0
}

/// The first `k` ranges in the order in which they are taken out.
spec fn taken(ranges: Seq<(int, int)>, k: int) -> Seq<(int, int)> {
    Seq::new(k as nat, |j: int| ranges[back_to_front(starts(ranges))[j]])
}

proof fn lemma_kept_same(text: Seq<char>, a: Seq<(int, int)>, b: Seq<(int, int)>, from: int)
    requires
        forall|idx: int| from <= idx < text.len() ==> #[trigger] covered(a, idx) == covered(b, idx),
    ensures
        kept(text, a, from) == kept(text, b, from),
    decreases text.len() - from,
{
    if from < text.len() {
        assert(covered(a, from) == covered(b, from));
        lemma_kept_same(text, a, b, from + 1);
    }
}

proof fn lemma_kept_prefix(text: Seq<char>, ranges: Seq<(int, int)>, from: int, upto: int)
    requires
        0 <= from <= upto <= text.len(),
        forall|idx: int| from <= idx < upto ==> !#[trigger] covered(ranges, idx),
    ensures
        kept(text, ranges, from) == text.subrange(from, upto) + kept(text, ranges, upto),
    decreases upto - from,
{
    if from < upto {
        assert(!covered(ranges, from));
        lemma_kept_prefix(text, ranges, from + 1, upto);
        assert(text.subrange(from, upto) =~= seq![text[from]] + text.subrange(from + 1, upto));
    }
    assert(kept(text, ranges, from) =~= text.subrange(from, upto) + kept(text, ranges, upto));
}

proof fn lemma_kept_covered(text: Seq<char>, ranges: Seq<(int, int)>, from: int, upto: int)
    requires
        0 <= from <= upto <= text.len(),
        forall|idx: int| from <= idx < upto ==> #[trigger] covered(ranges, idx),
    ensures
        kept(text, ranges, from) == kept(text, ranges, upto),
    decreases upto - from,
{
    if from < upto {
        assert(covered(ranges, from));
        lemma_kept_covered(text, ranges, from + 1, upto);
    }
}

proof fn lemma_covered_push(ranges: Seq<(int, int)>, r: (int, int), idx: int)
    ensures
        covered(ranges.push(r), idx) == (covered(ranges, idx) || r.0 <= idx < r.1),
{
    let more = ranges.push(r);
    if covered(ranges, idx) {
        let i = choose|i: int|
            0 <= i < ranges.len() && (#[trigger] ranges[i]).0 <= idx < ranges[i].1;
        assert(more[i] == ranges[i]);
    }
    assert(more[ranges.len() as int] == r);
    if covered(more, idx) {
        let i = choose|i: int| 0 <= i < more.len() && (#[trigger] more[i]).0 <= idx < more[i].1;
        if i < ranges.len() {
            assert(ranges[i] == more[i]);
        }
    }
}

proof fn lemma_kept_step(text: Seq<char>, ranges: Seq<(int, int)>, r: (int, int))
    requires
        0 <= r.0 <= r.1 <= text.len(),
        forall|idx: int| idx < r.1 ==> !#[trigger] covered(ranges, idx),
    ensures
        kept(text, ranges, 0).len() >= r.1,
        cut(kept(text, ranges, 0), r.0, r.1) == kept(text, ranges.push(r), 0),
{
    let more = ranges.push(r);
    assert forall|idx: int| #[trigger] covered(more, idx) == (covered(ranges, idx) || r.0 <= idx
        < r.1) by {
        lemma_covered_push(ranges, r, idx);
    }
    lemma_kept_prefix(text, ranges, 0, r.1);
    lemma_kept_prefix(text, more, 0, r.0);
    lemma_kept_covered(text, more, r.0, r.1);
    assert forall|idx: int| r.1 <= idx < text.len() implies #[trigger] covered(ranges, idx)
        == covered(more, idx) by {
        assert(covered(more, idx) == (covered(ranges, idx) || r.0 <= idx < r.1));
    }
    lemma_kept_same(text, ranges, more, r.1);
    assert(cut(kept(text, ranges, 0), r.0, r.1) =~= kept(text, more, 0));
}

proof fn lemma_removed_steps(text: Seq<char>, ranges: Seq<(int, int)>, k: int)
    requires
        0 <= k <= ranges.len(),
        apart(text, ranges),
    ensures
        removals(text, ranges, k) == kept(text, taken(ranges, k), 0),
        k < ranges.len() ==> {
            let r = ranges[back_to_front(starts(ranges))[k]];
            0 <= r.0 <= r.1 <= removals(text, ranges, k).len()
        },
    decreases k,
{
    let order = back_to_front(starts(ranges));
    lemma_back_to_front(starts(ranges));
    if k > 0 {
        lemma_removed_steps(text, ranges, k - 1);
        let before = taken(ranges, k - 1);
        let r = ranges[order[k - 1]];
        lemma_next_apart(text, ranges, k - 1);
        lemma_kept_step(text, before, r);
        assert(taken(ranges, k) =~= before.push(r));
    } else {
        lemma_kept_prefix(text, taken(ranges, 0), 0, text.len() as int);
        assert(kept(text, taken(ranges, 0), 0) =~= text);
    }
    if k < ranges.len() {
        lemma_next_apart(text, ranges, k);
        lemma_kept_step(text, taken(ranges, k), ranges[order[k]]);
    }
}

/// The ranges that were taken out cover nothing before the end of the next
/// one.
proof fn lemma_next_apart(text: Seq<char>, ranges: Seq<(int, int)>, k: int)
    requires
        0 <= k < ranges.len(),
        apart(text, ranges),
    ensures
        ({
            let r = ranges[back_to_front(starts(ranges))[k]];
            &&& 0 <= r.0 <= r.1 <= text.len()
            &&& forall|idx: int| idx < r.1 ==> !#[trigger] covered(taken(ranges, k), idx)
        }),
{
    let keys = starts(ranges);
    let order = back_to_front(keys);
    lemma_back_to_front(keys);
    let before = taken(ranges, k);
    let p = order[k];
    assert(0 <= p < keys.len());
    let r = ranges[p];
    assert forall|idx: int| idx < r.1 implies !#[trigger] covered(before, idx) by {
        if covered(before, idx) {
            let j = choose|j: int|
                0 <= j < before.len() && (#[trigger] before[j]).0 <= idx < before[j].1;
            let q = order[j];
            assert(0 <= q < keys.len());
            assert(before[j] == ranges[q]);
            assert(edited_before(keys, order[j], order[k]));
            assert(keys[q] == ranges[q].0 && keys[p] == ranges[p].0);
            if p < q {
                assert(disjoint(ranges[p], ranges[q]));
            } else {
                assert(disjoint(ranges[q], ranges[p]));
            }
        }
    }
}

/// Ranges that cover no char twice can be taken out, and what is left are the
/// chars that none of them covers.
pub proof fn law_removed_ranges(text: Seq<char>, ranges: Seq<(int, int)>)
    requires
        apart(text, ranges),
    ensures
        removable(text, ranges),
        removals(text, ranges, ranges.len() as int) == kept(text, ranges, 0),
{
    let n = ranges.len() as int;
    let order = back_to_front(starts(ranges));
    lemma_back_to_front(starts(ranges));
    assert forall|k: int| 0 <= k < ranges.len() implies 0 <= ranges[#[trigger] order[k]].0
        <= ranges[order[k]].1 <= removals(text, ranges, k).len() by {
        lemma_removed_steps(text, ranges, k);
    }
    lemma_removed_steps(text, ranges, n);
    let all = taken(ranges, n);
    assert forall|idx: int| 0 <= idx < text.len() implies #[trigger] covered(all, idx) == covered(
        ranges,
        idx,
    ) by {
        if covered(all, idx) {
            let j = choose|j: int| 0 <= j < all.len() && (#[trigger] all[j]).0 <= idx < all[j].1;
            assert(0 <= order[j] < ranges.len());
            assert(all[j] == ranges[order[j]]);
        }
        if covered(ranges, idx) {
            let p = choose|p: int|
                0 <= p < ranges.len() && (#[trigger] ranges[p]).0 <= idx < ranges[p].1;
            assert(order.contains(p));
            let j = choose|j: int| 0 <= j < order.len() && order[j] == p;
            assert(all[j] == ranges[p]);
        }
    }
    lemma_kept_same(text, all, ranges, 0);
}

/// Selections that do not overlap can be deleted, and what is left are the
/// chars that are not selected.
pub proof fn law_deleted_selections(m: BufferModel)
    requires
        m.valid(),
        apart(m.text, m.ranges()),
    ensures
        removable(m.text, m.ranges()),
        after_delete(m).text == kept(m.text, m.ranges(), 0),
        forall|idx: int| covered(m.ranges(), idx) == #[trigger] is_selected(m, idx),
{
    law_removed_ranges(m.text, m.ranges());
    let ranges = m.ranges();
    assert forall|idx: int| covered(ranges, idx) == #[trigger] is_selected(m, idx) by {
        if covered(ranges, idx) {
            let i = choose|i: int|
                0 <= i < ranges.len() && (#[trigger] ranges[i]).0 <= idx < ranges[i].1;
            assert(m.spans[i].covers(m.text, idx));
        }
        if is_selected(m, idx) {
            let i = choose|i: int|
                0 <= i < m.spans.len() && #[trigger] m.spans[i].covers(m.text, idx);
            assert(ranges[i].0 <= idx < ranges[i].1);
        }
    }
}

/// Where every cursor has a char of its own before it, a backspace can be
/// done, and takes out just those chars.
pub proof fn law_backspaced(m: BufferModel)
    requires
        m.valid(),
        forall|i: int| 0 <= i < m.cursors().len() ==> #[trigger] m.cursors()[i] > 0,
        forall|i: int, j: int|
            0 <= i < j < m.cursors().len() ==> #[trigger] m.cursors()[i]
                != #[trigger] m.cursors()[j],
    ensures
        removable(m.text, before_cursors(m)),
        after_backspace(m).text == kept(m.text, before_cursors(m), 0),
{
    lemma_cursors(m);
    let ranges = before_cursors(m);
    assert forall|i: int| 0 <= i < ranges.len() implies 0 <= (#[trigger] ranges[i]).0
        <= ranges[i].1 <= m.text.len() by {
        assert(m.cursors()[i] > 0);
    }
    assert forall|i: int, j: int| 0 <= i < j < ranges.len() implies disjoint(
        #[trigger] ranges[i],
        #[trigger] ranges[j],
    ) by {
        assert(m.cursors()[i] != m.cursors()[j]);
    }
    law_removed_ranges(m.text, ranges);
}

/// The number of chars that the first `k` steps take out.
pub open spec fn taken_out(ranges: Seq<(int, int)>, k: int) -> int
    decreases k,
{
    if k <= 0 {
        0
    } else {
        let r = ranges[back_to_front(starts(ranges))[k - 1]];
        taken_out(ranges, k - 1) + (r.1 - r.0)
    }
}

/// Whether the range of step `k` runs forward, and ends in what the steps
/// before it leave of a text of `len` chars.
pub open spec fn in_reach(len: int, ranges: Seq<(int, int)>, k: int) -> bool {
    let r = ranges[back_to_front(starts(ranges))[k]];
    0 <= r.0 <= r.1 && r.1 <= len - taken_out(ranges, k)
}

proof fn lemma_left_over(text: Seq<char>, ranges: Seq<(int, int)>, k: int)
    requires
        0 <= k <= ranges.len(),
        forall|j: int| 0 <= j < k ==> #[trigger] in_reach(text.len() as int, ranges, j),
    ensures
        removals(text, ranges, k).len() == text.len() - taken_out(ranges, k),
    decreases k,
{
    if k > 0 {
        lemma_left_over(text, ranges, k - 1);
        assert(in_reach(text.len() as int, ranges, k - 1));
    }
}

/// Ranges can be taken out if and only if each of them is in reach when its
/// step comes.
pub proof fn law_removable(text: Seq<char>, ranges: Seq<(int, int)>)
    ensures
        removable(text, ranges) <==> forall|k: int|
            0 <= k < ranges.len() ==> #[trigger] in_reach(text.len() as int, ranges, k),
{
    let len = text.len() as int;
    let order = back_to_front(starts(ranges));
    if removable(text, ranges) {
        assert forall|k: int| 0 <= k < ranges.len() implies #[trigger] in_reach(
            len,
            ranges,
            k,
        ) by {
            lemma_in_reach(text, ranges, k);
        }
    }
    if forall|k: int| 0 <= k < ranges.len() ==> #[trigger] in_reach(len, ranges, k) {
        assert forall|k: int| 0 <= k < ranges.len() implies 0 <= ranges[#[trigger] order[k]].0
            <= ranges[order[k]].1 <= removals(text, ranges, k).len() by {
            lemma_left_over(text, ranges, k);
            assert(in_reach(len, ranges, k));
        }
    }
}

proof fn lemma_in_reach(text: Seq<char>, ranges: Seq<(int, int)>, k: int)
    requires
        removable(text, ranges),
        0 <= k < ranges.len(),
    ensures
        forall|j: int| 0 <= j <= k ==> #[trigger] in_reach(text.len() as int, ranges, j),
    decreases k,
{
    let order = back_to_front(starts(ranges));
    if k > 0 {
        lemma_in_reach(text, ranges, k - 1);
    }
    lemma_left_over(text, ranges, k);
    assert(0 <= ranges[order[k]].0 <= ranges[order[k]].1 <= removals(text, ranges, k).len());
}

} // verus!
