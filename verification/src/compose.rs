//! How an edit at several places is made up of edits at single ones.

use crate::coord::{aligned_idx, forward_by, Pos};
use crate::edits::{
    after_backspace, after_delete, after_insert, after_paste, after_remove, before_cursors,
    insertions, pasted_spans, pulled_span, removals, removed_spans, stacked, starts, typed,
    typed_spans, BufferModel,
};
use crate::order::{
    back_to_front, edited_before, is_back_to_front, lemma_back_to_front, lemma_order_distinct,
};
use crate::rope::{cut, spliced};
use crate::selection::Span;
use vstd::prelude::*;

verus! {

/// The buffer without one of its selections.
pub open spec fn without(m: BufferModel, p: int) -> BufferModel {
    BufferModel { spans: m.spans.remove(p), ..m }
}

/// The index of the place `q` once the place `p` is gone.
pub open spec fn index_without(p: int, q: int) -> int {
    if q < p {
        q
    } else {
        q - 1
    }
}

/// Whether all other places are edited before the place `p`: their keys are
/// greater, or the same if they come later.
pub open spec fn edited_last(keys: Seq<int>, p: int) -> bool {
    &&& 0 <= p < keys.len()
    &&& forall|q: int|
        0 <= q < keys.len() && q != p ==> #[trigger] keys[q] > keys[p] || (keys[q] == keys[p] && q
            > p)
}

/// There is one order of editing only.
pub proof fn law_one_order(keys: Seq<int>, a: Seq<int>, b: Seq<int>)
    requires
        is_back_to_front(keys, a),
        is_back_to_front(keys, b),
    ensures
        a == b,
{
    assert forall|i: int| 0 <= i < a.len() implies #[trigger] a[i] == b[i] by {
        lemma_one_order(keys, a, b, i);
    }
    assert(a =~= b);
}

proof fn lemma_one_order(keys: Seq<int>, a: Seq<int>, b: Seq<int>, i: int)
    requires
        is_back_to_front(keys, a),
        is_back_to_front(keys, b),
        0 <= i < a.len(),
    ensures
        a[i] == b[i],
    decreases i,
{
    assert forall|j: int| 0 <= j < i implies #[trigger] a[j] == b[j] by {
        lemma_one_order(keys, a, b, j);
    }
    assert(0 <= a[i] < keys.len());
    assert(0 <= b[i] < keys.len());
    assert(b.contains(a[i]));
    let t = choose|t: int| 0 <= t < b.len() && b[t] == a[i];
    assert(a.contains(b[i]));
    let u = choose|u: int| 0 <= u < a.len() && a[u] == b[i];
    if t < i {
        assert(a[t] == b[t]);
        lemma_order_distinct(keys, a, t, i);
    }
    if u < i {
        assert(a[u] == b[u]);
        lemma_order_distinct(keys, b, u, i);
    }
    if t > i && u > i {
        assert(edited_before(keys, b[i], b[t]));
        assert(edited_before(keys, a[i], a[u]));
    }
}

/// Without the place that is edited last, the others are edited in the same
/// order.
proof fn lemma_order_without_last(keys: Seq<int>, p: int)
    requires
        edited_last(keys, p),
    ensures
        ({
            let order = back_to_front(keys);
            let rest = back_to_front(keys.remove(p));
            let n = keys.len() as int;
            &&& order.len() == n
            &&& rest.len() == n - 1
            &&& order[n - 1] == p
            &&& forall|j: int|
                #![trigger order[j]]
                #![trigger rest[j]]
                0 <= j < n - 1 ==> {
                    &&& 0 <= order[j] < n
                    &&& order[j] != p
                    &&& rest[j] == index_without(p, order[j])
                }
        }),
{
    let n = keys.len() as int;
    let order = back_to_front(keys);
    let fewer = keys.remove(p);
    lemma_back_to_front(keys);
    lemma_back_to_front(fewer);
    assert(order.contains(p));
    let t = choose|t: int| 0 <= t < order.len() && order[t] == p;
    if t < n - 1 {
        assert(edited_before(keys, order[t], order[n - 1]));
        assert(0 <= order[n - 1] < n);
        lemma_order_distinct_values(keys, order, t, n - 1);
        assert(keys[order[n - 1]] > keys[p] || (keys[order[n - 1]] == keys[p] && order[n - 1]
            > p));
    }
    assert(order[n - 1] == p);
    let found = Seq::new((n - 1) as nat, |j: int| index_without(p, order[j]));
    assert forall|j: int| 0 <= j < n - 1 implies 0 <= #[trigger] order[j] < n && order[j] != p by {
        lemma_order_distinct_values(keys, order, j, n - 1);
    }
    assert forall|i: int| 0 <= i < found.len() implies 0 <= #[trigger] found[i] < fewer.len() by {
        assert(0 <= order[i] < n && order[i] != p);
    }
    assert forall|q: int| 0 <= q < fewer.len() implies #[trigger] found.contains(q) by {
        let old = if q < p { q } else { q + 1 };
        assert(order.contains(old));
        let j = choose|j: int| 0 <= j < order.len() && order[j] == old;
        assert(found[j] == q);
    }
    assert forall|i: int, j: int| 0 <= i < j < found.len() implies edited_before(
        fewer,
        #[trigger] found[i],
        #[trigger] found[j],
    ) by {
        assert(edited_before(keys, order[i], order[j]));
        assert(0 <= order[i] < n && order[i] != p);
        assert(0 <= order[j] < n && order[j] != p);
        assert(fewer[found[i]] == keys[order[i]]);
        assert(fewer[found[j]] == keys[order[j]]);
    }
    assert(is_back_to_front(fewer, found));
    law_one_order(fewer, found, back_to_front(fewer));
}

proof fn lemma_order_distinct_values(keys: Seq<int>, order: Seq<int>, i: int, j: int)
    requires
        is_back_to_front(keys, order),
        0 <= i < order.len(),
        0 <= j < order.len(),
        i != j,
    ensures
        order[i] != order[j],
{
    if order[i] == order[j] {
        lemma_order_distinct(keys, order, i, j);
    }
}

/// Putting the same pieces in at the same points, step by step, gives the same
/// text.
proof fn lemma_same_insertions(
    text: Seq<char>,
    a: Seq<int>,
    b: Seq<int>,
    pieces: Seq<Seq<char>>,
    others: Seq<Seq<char>>,
    k: int,
)
    requires
        0 <= k,
        forall|j: int|
            #![trigger back_to_front(a)[j]]
            0 <= j < k ==> a[back_to_front(a)[j]] == b[back_to_front(b)[j]],
        pieces.len() == others.len() || (k <= pieces.len() && k <= others.len()),
        forall|j: int| 0 <= j < k && j < pieces.len() ==> #[trigger] pieces[j] == others[j],
    ensures
        insertions(text, a, pieces, k) == insertions(text, b, others, k),
    decreases k,
{
    if k > 0 {
        lemma_same_insertions(text, a, b, pieces, others, k - 1);
        assert(a[back_to_front(a)[k - 1]] == b[back_to_front(b)[k - 1]]);
        if k <= pieces.len() {
            assert(pieces[k - 1] == others[k - 1]);
        }
    }
}

/// The points of the cursors without one of them.
proof fn lemma_cursors_without(m: BufferModel, p: int)
    requires
        0 <= p < m.spans.len(),
    ensures
        without(m, p).cursors() == m.cursors().remove(p),
{
    assert(without(m, p).cursors() =~= m.cursors().remove(p));
}

/// Which places are done after `k` steps, with and without the last one.
proof fn lemma_done_without(keys: Seq<int>, p: int, k: int, i: int)
    requires
        edited_last(keys, p),
        0 <= k < keys.len(),
        0 <= i < keys.len(),
        i != p,
    ensures
        back_to_front(keys).take(k).contains(i) <==> back_to_front(keys.remove(p)).take(
            k,
        ).contains(index_without(p, i)),
        !back_to_front(keys).take(k).contains(p),
{
    let order = back_to_front(keys);
    let rest = back_to_front(keys.remove(p));
    lemma_order_without_last(keys, p);
    if order.take(k).contains(i) {
        let j = choose|j: int| 0 <= j < k && order.take(k)[j] == i;
        assert(order[j] == i);
        assert(rest.take(k)[j] == index_without(p, i));
    }
    if rest.take(k).contains(index_without(p, i)) {
        let j = choose|j: int| 0 <= j < k && rest.take(k)[j] == index_without(p, i);
        assert(rest[j] == index_without(p, order[j]));
        assert(order[j] == i);
        assert(order.take(k)[j] == i);
    }
    if order.take(k).contains(p) {
        let j = choose|j: int| 0 <= j < k && order.take(k)[j] == p;
        assert(order[j] == p);
    }
}

proof fn lemma_typed_without(m: BufferModel, ch: char, p: int, k: int)
    requires
        edited_last(m.cursors(), p),
        0 <= k < m.spans.len(),
    ensures
        typed_spans(m, ch, k).len() == m.spans.len(),
        typed_spans(without(m, p), ch, k).len() == m.spans.len() - 1,
        typed_spans(m, ch, k)[p] == m.spans[p],
        forall|i: int|
            0 <= i < m.spans.len() && i != p ==> #[trigger] typed_spans(m, ch, k)[i]
                == typed_spans(without(m, p), ch, k)[index_without(p, i)],
        insertions(m.text, m.cursors(), typed(ch, m.spans.len()), k) == insertions(
            m.text,
            without(m, p).cursors(),
            typed(ch, (m.spans.len() - 1) as nat),
            k,
        ),
    decreases k,
{
    let fewer = without(m, p);
    let keys = m.cursors();
    lemma_cursors_without(m, p);
    lemma_order_without_last(keys, p);
    assert forall|j: int|
        #![trigger back_to_front(keys)[j]]
        0 <= j < k implies keys[back_to_front(keys)[j]] == fewer.cursors()[back_to_front(
        fewer.cursors(),
    )[j]] by {
        let q = back_to_front(keys)[j];
        assert(back_to_front(fewer.cursors())[j] == index_without(p, q));
    }
    lemma_same_insertions(
        m.text,
        keys,
        fewer.cursors(),
        typed(ch, m.spans.len()),
        typed(ch, (m.spans.len() - 1) as nat),
        k,
    );
    if k > 0 {
        lemma_typed_without(m, ch, p, k - 1);
        assert forall|i: int| 0 <= i < m.spans.len() && i != p implies #[trigger] typed_spans(
            m,
            ch,
            k,
        )[i] == typed_spans(fewer, ch, k)[index_without(p, i)] by {
            lemma_done_without(keys, p, k, i);
            assert(typed_spans(m, ch, k - 1)[i] == typed_spans(fewer, ch, k - 1)[index_without(
                p,
                i,
            )]);
        }
        if m.spans.len() > 1 {
            let other = if p == 0 { 1int } else { 0int };
            lemma_done_without(keys, p, k, other);
        }
    }
}

/// Typing at one cursor more, which is edited last, is typing at the others,
/// and then at that one: the char is put in there too, and all cursors go one
/// char forward in the text that is then there, and select nothing.
pub proof fn law_one_cursor_more(m: BufferModel, ch: char, p: int)
    requires
        edited_last(m.cursors(), p),
    ensures
        ({
            let rest = after_insert(without(m, p), ch);
            let new = after_insert(m, ch);
            &&& new.text == spliced(rest.text, m.cursors()[p], seq![ch])
            &&& new.primary == m.primary
            &&& new.spans.len() == m.spans.len()
            &&& forall|i: int|
                0 <= i < m.spans.len() ==> {
                    let from = if i == p {
                        m.spans[p].cursor
                    } else {
                        rest.spans[index_without(p, i)].cursor
                    };
                    let to = forward_by(new.text, from, 1);
                    #[trigger] new.spans[i] == Span { anchor: to, cursor: to }
                }
        }),
{
    let rest = after_insert(without(m, p), ch);
    let new = after_insert(m, ch);
    let n = m.spans.len() as int;
    lemma_typed_without(m, ch, p, n - 1);
    lemma_cursors_without(m, p);
    lemma_order_without_last(m.cursors(), p);
    let order = back_to_front(m.cursors());
    lemma_back_to_front(m.cursors());
    assert(typed(ch, m.spans.len())[n - 1] == seq![ch]);
    assert forall|i: int| 0 <= i < m.spans.len() implies {
        let from = if i == p {
            m.spans[p].cursor
        } else {
            rest.spans[index_without(p, i)].cursor
        };
        let to = forward_by(new.text, from, 1);
        #[trigger] new.spans[i] == Span { anchor: to, cursor: to }
    } by {
        assert(order.contains(i));
        assert(order.take(n) =~= order);
        if i != p {
            assert(typed_spans(m, ch, n - 1)[i] == rest.spans[index_without(p, i)]);
        }
    }
}

/// Where an end goes when `n` chars are put in at `at`: forward by them, if it
/// falls there or further on in the new text.
pub open spec fn end_pushed(text: Seq<char>, pos: Pos, at: int, n: int) -> Pos {
    if aligned_idx(text, pos) >= at {
        forward_by(text, pos, n)
    } else {
        pos
    }
}

proof fn lemma_pasted_without(
    m: BufferModel,
    pieces: Seq<Seq<char>>,
    extend: bool,
    p: int,
    k: int,
)
    requires
        edited_last(m.cursors(), p),
        0 <= k < m.spans.len(),
    ensures
        pasted_spans(m, pieces, extend, k).len() == m.spans.len(),
        pasted_spans(without(m, p), pieces, extend, k).len() == m.spans.len() - 1,
        pasted_spans(m, pieces, extend, k)[p] == m.spans[p],
        forall|i: int|
            0 <= i < m.spans.len() && i != p ==> #[trigger] pasted_spans(m, pieces, extend, k)[i]
                == pasted_spans(without(m, p), pieces, extend, k)[index_without(p, i)],
        insertions(m.text, m.cursors(), pieces, k) == insertions(
            m.text,
            without(m, p).cursors(),
            pieces,
            k,
        ),
    decreases k,
{
    let fewer = without(m, p);
    let keys = m.cursors();
    let order = back_to_front(keys);
    let rest = back_to_front(fewer.cursors());
    lemma_cursors_without(m, p);
    lemma_order_without_last(keys, p);
    assert forall|j: int|
        #![trigger back_to_front(keys)[j]]
        0 <= j < k implies keys[back_to_front(keys)[j]] == fewer.cursors()[back_to_front(
        fewer.cursors(),
    )[j]] by {
        let q = back_to_front(keys)[j];
        assert(back_to_front(fewer.cursors())[j] == index_without(p, q));
    }
    lemma_same_insertions(m.text, keys, fewer.cursors(), pieces, pieces, k);
    if k > 0 {
        lemma_pasted_without(m, pieces, extend, p, k - 1);
        assert(order[k - 1] != p && rest[k - 1] == index_without(p, order[k - 1]));
        assert(keys[order[k - 1]] == fewer.cursors()[rest[k - 1]]);
        assert forall|i: int| 0 <= i < m.spans.len() && i != p implies #[trigger] pasted_spans(
            m,
            pieces,
            extend,
            k,
        )[i] == pasted_spans(fewer, pieces, extend, k)[index_without(p, i)] by {
            lemma_done_without(keys, p, k - 1, i);
            assert(pasted_spans(m, pieces, extend, k - 1)[i] == pasted_spans(
                fewer,
                pieces,
                extend,
                k - 1,
            )[index_without(p, i)]);
        }
        if m.spans.len() > 1 {
            let other = if p == 0 { 1int } else { 0int };
            lemma_done_without(keys, p, k - 1, other);
        }
    }
}

/// Pasting at one cursor more, which is edited last, is pasting at the others,
/// and then at that one the last text, if there are texts enough: it is put in
/// there, the selection there covers it or is extended over it, and the ends of
/// the other selections that come after it move on.
pub proof fn law_one_paste_more(
    m: BufferModel,
    stored: Seq<Seq<Seq<char>>>,
    extend: bool,
    p: int,
)
    requires
        edited_last(m.cursors(), p),
    ensures
        ({
            let rest = after_paste(without(m, p), stored, extend);
            let new = after_paste(m, stored, extend);
            let last = m.spans.len() - 1;
            let at = m.cursors()[p];
            let own = m.spans[p];
            &&& new.primary == m.primary
            &&& new.spans.len() == m.spans.len()
            &&& stored.len() <= last ==> {
                &&& new.text == rest.text
                &&& new.spans[p] == own
                &&& forall|i: int|
                    0 <= i < m.spans.len() && i != p ==> #[trigger] new.spans[i]
                        == rest.spans[index_without(p, i)]
            }
            &&& stored.len() > last ==> {
                let piece = stacked(stored[last]);
                let n = piece.len() as int;
                let forward = aligned_idx(new.text, own.anchor) <= aligned_idx(
                    new.text,
                    own.cursor,
                );
                &&& new.text == spliced(rest.text, at, piece)
                &&& new.spans[p] == if forward {
                    Span {
                        anchor: if extend {
                            own.anchor
                        } else {
                            own.cursor
                        },
                        cursor: forward_by(new.text, own.cursor, n),
                    }
                } else {
                    Span {
                        anchor: forward_by(
                            new.text,
                            if extend {
                                own.anchor
                            } else {
                                own.cursor
                            },
                            n,
                        ),
                        cursor: own.cursor,
                    }
                }
                &&& forall|i: int|
                    0 <= i < m.spans.len() && i != p ==> {
                        let s = rest.spans[index_without(p, i)];
                        #[trigger] new.spans[i] == Span {
                            anchor: end_pushed(new.text, s.anchor, at, n),
                            cursor: end_pushed(new.text, s.cursor, at, n),
                        }
                    }
            }
        }),
{
    let pieces = stored.map_values(|s: Seq<Seq<char>>| stacked(s));
    let rest = after_paste(without(m, p), stored, extend);
    let new = after_paste(m, stored, extend);
    let count = m.spans.len() as int;
    let keys = m.cursors();
    let order = back_to_front(keys);
    lemma_pasted_without(m, pieces, extend, p, count - 1);
    lemma_cursors_without(m, p);
    lemma_order_without_last(keys, p);
    lemma_back_to_front(keys);
    if stored.len() > count - 1 {
        assert(pieces[count - 1] == stacked(stored[count - 1]));
        let n = pieces[count - 1].len() as int;
        let at = keys[p];
        assert forall|i: int| 0 <= i < m.spans.len() && i != p implies {
            let s = rest.spans[index_without(p, i)];
            #[trigger] new.spans[i] == Span {
                anchor: end_pushed(new.text, s.anchor, at, n),
                cursor: end_pushed(new.text, s.cursor, at, n),
            }
        } by {
            assert(order.contains(i));
            let j = choose|j: int| 0 <= j < order.len() && order[j] == i;
            assert(order.take(count - 1)[j] == i);
            assert(order.take(count - 1).contains(i));
            assert(pasted_spans(m, pieces, extend, count - 1)[i] == rest.spans[index_without(
                p,
                i,
            )]);
        }
    }
}

proof fn lemma_removed_without(m: BufferModel, ranges: Seq<(int, int)>, p: int, k: int)
    requires
        edited_last(starts(ranges), p),
        0 <= k < ranges.len(),
    ensures
        removals(m.text, ranges, k) == removals(m.text, ranges.remove(p), k),
        removed_spans(m, ranges, k) == removed_spans(m, ranges.remove(p), k),
    decreases k,
{
    let fewer = ranges.remove(p);
    assert(starts(fewer) =~= starts(ranges).remove(p));
    lemma_order_without_last(starts(ranges), p);
    if k > 0 {
        lemma_removed_without(m, ranges, p, k - 1);
        let q = back_to_front(starts(ranges))[k - 1];
        assert(q != p && back_to_front(starts(fewer))[k - 1] == index_without(p, q));
        assert(fewer[index_without(p, q)] == ranges[q]);
    }
}

/// Taking one range more out, whose turn comes last, is taking the others out,
/// and then that one: it is cut out of what they leave, and all selections are
/// pulled back by it.
pub proof fn law_one_range_more(m: BufferModel, ranges: Seq<(int, int)>, p: int)
    requires
        edited_last(starts(ranges), p),
    ensures
        ({
            let rest = after_remove(m, ranges.remove(p));
            let new = after_remove(m, ranges);
            let r = ranges[p];
            &&& new.text == cut(rest.text, r.0, r.1)
            &&& new.primary == m.primary
            &&& new.spans.len() == rest.spans.len()
            &&& forall|i: int|
                0 <= i < rest.spans.len() ==> #[trigger] new.spans[i] == pulled_span(
                    rest.text,
                    rest.spans[i],
                    r.0,
                    r.1 - r.0,
                )
        }),
{
    lemma_order_without_last(starts(ranges), p);
    lemma_removed_without(m, ranges, p, ranges.len() - 1);
}

/// An edit at no place changes nothing.
pub proof fn law_no_place(m: BufferModel, ch: char, stored: Seq<Seq<Seq<char>>>, extend: bool)
    ensures
        m.spans.len() == 0 ==> after_insert(m, ch) == m,
        m.spans.len() == 0 ==> after_paste(m, stored, extend) == m,
        after_remove(m, Seq::empty()) == m,
{
}

/// Deleting is collapsing all selections onto their cursors, and taking the
/// selected ranges out.
pub proof fn law_deleting(m: BufferModel)
    ensures
        after_delete(m) == after_remove(
            BufferModel {
                spans: Seq::new(
                    m.spans.len(),
                    |i: int| Span { anchor: m.spans[i].cursor, cursor: m.spans[i].cursor },
                ),
                ..m
            },
            m.ranges(),
        ),
        after_backspace(m) == after_remove(
            BufferModel {
                spans: Seq::new(
                    m.spans.len(),
                    |i: int| Span { anchor: m.spans[i].cursor, cursor: m.spans[i].cursor },
                ),
                ..m
            },
            Seq::new(m.spans.len(), |i: int| (m.cursors()[i] - 1, m.cursors()[i])),
        ),
{
    assert(m.collapsed().spans =~= Seq::new(
        m.spans.len(),
        |i: int| Span { anchor: m.spans[i].cursor, cursor: m.spans[i].cursor },
    ));
    assert(before_cursors(m) =~= Seq::new(
        m.spans.len(),
        |i: int| (m.cursors()[i] - 1, m.cursors()[i]),
    ));
}

} // verus!
