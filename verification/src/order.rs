//! The order in which a text is edited at several places: from the back to
//! the front, so that an edit leaves the places still to come where they are.

use vstd::prelude::*;

verus! {

/// Puts the place `p` into an order of earlier places, in front of the first
/// place whose key is not greater.
pub open spec fn ranked_in(keys: Seq<int>, order: Seq<int>, p: int) -> Seq<int>
    decreases order.len(),
{
    if order.len() == 0 || keys[order[0]] <= keys[p] {
        seq![p] + order
    } else {
        seq![order[0]] + ranked_in(keys, order.drop_first(), p)
    }
}

/// The places `0..keys.len()` by descending key, the later one of two with
/// equal keys first.
pub open spec fn back_to_front(keys: Seq<int>) -> Seq<int>
    decreases keys.len(),
{
    if keys.len() == 0 {
        Seq::empty()
    } else {
        ranked_in(keys, back_to_front(keys.drop_last()), keys.len() - 1)
    }
}

/// Whether the place `a` is edited before the place `b`.
pub open spec fn edited_before(keys: Seq<int>, a: int, b: int) -> bool {
    keys[a] > keys[b] || (keys[a] == keys[b] && a > b)
}

/// Whether an order holds each of the places `0..keys.len()` once, and each
/// place after all those that are edited before it.
pub open spec fn is_back_to_front(keys: Seq<int>, order: Seq<int>) -> bool {
    &&& order.len() == keys.len()
    &&& forall|i: int| 0 <= i < order.len() ==> 0 <= #[trigger] order[i] < keys.len()
    &&& forall|p: int| 0 <= p < keys.len() ==> #[trigger] order.contains(p)
    &&& forall|i: int, j: int|
        0 <= i < j < order.len() ==> edited_before(keys, #[trigger] order[i], #[trigger] order[j])
}

/// `ranked_in` puts `p` in at the first index whose key is not greater.
proof fn lemma_ranked_in(keys: Seq<int>, order: Seq<int>, p: int, at: int)
    requires
        0 <= at <= order.len(),
        forall|i: int| 0 <= i < at ==> keys[#[trigger] order[i]] > keys[p],
        at < order.len() ==> keys[order[at]] <= keys[p],
    ensures
        ranked_in(keys, order, p) == order.insert(at, p),
    decreases order.len(),
{
    if order.len() == 0 || keys[order[0]] <= keys[p] {
        if at > 0 {
            assert(keys[order[0]] > keys[p]);
        }
        assert(seq![p] + order =~= order.insert(0, p));
    } else {
        let rest = order.drop_first();
        assert forall|i: int| 0 <= i < at - 1 implies keys[#[trigger] rest[i]] > keys[p] by {
            assert(rest[i] == order[i + 1]);
        }
        lemma_ranked_in(keys, rest, p, at - 1);
        assert(seq![order[0]] + rest.insert(at - 1, p) =~= order.insert(at, p));
    }
}

/// Where `ranked_in` puts `p` in.
proof fn lemma_rank_exists(keys: Seq<int>, order: Seq<int>, p: int) -> (at: int)
    ensures
        0 <= at <= order.len(),
        forall|i: int| 0 <= i < at ==> keys[#[trigger] order[i]] > keys[p],
        at < order.len() ==> keys[order[at]] <= keys[p],
    decreases order.len(),
{
    if order.len() == 0 || keys[order[0]] <= keys[p] {
        0
    } else {
        let rest = order.drop_first();
        let at = lemma_rank_exists(keys, rest, p);
        assert forall|i: int| 0 <= i < at + 1 implies keys[#[trigger] order[i]] > keys[p] by {
            if i > 0 {
                assert(order[i] == rest[i - 1]);
            }
        }
        at + 1
    }
}

/// The last place stands somewhere in the order of the places before it.
pub proof fn lemma_last_place(keys: Seq<int>) -> (at: int)
    requires
        keys.len() > 0,
    ensures
        0 <= at < keys.len(),
        back_to_front(keys).len() == keys.len(),
        back_to_front(keys) == back_to_front(keys.drop_last()).insert(at, keys.len() - 1),
{
    let order = back_to_front(keys.drop_last());
    lemma_back_to_front(keys.drop_last());
    let at = lemma_rank_exists(keys, order, keys.len() - 1);
    lemma_ranked_in(keys, order, keys.len() - 1, at);
    at
}

/// `back_to_front` holds each place once, and in the order in which they are
/// to be edited.
pub proof fn lemma_back_to_front(keys: Seq<int>)
    ensures
        is_back_to_front(keys, back_to_front(keys)),
    decreases keys.len(),
{
    if keys.len() > 0 {
        let before = keys.drop_last();
        let p = keys.len() - 1;
        lemma_back_to_front(before);
        let order = back_to_front(before);
        let at = lemma_rank_exists(keys, order, p);
        lemma_ranked_in(keys, order, p, at);
        let res = order.insert(at, p);
        assert forall|q: int| 0 <= q < keys.len() implies #[trigger] res.contains(q) by {
            if q == p {
                assert(res[at] == p);
            } else {
                assert(order.contains(q));
                let i = choose|i: int| 0 <= i < order.len() && order[i] == q;
                assert(res[if i < at { i } else { i + 1 }] == q);
            }
        }
        assert forall|i: int, j: int| 0 <= i < j < res.len() implies edited_before(
            keys,
            #[trigger] res[i],
            #[trigger] res[j],
        ) by {
            let oi = if i < at { i } else { i - 1 };
            let oj = if j < at { j } else { j - 1 };
            if i != at && j != at {
                assert(edited_before(before, order[oi], order[oj]));
            } else if i == at {
                if at < oj {
                    assert(edited_before(before, order[at], order[oj]));
                }
                assert(0 <= order[oj] < before.len());
            } else {
                assert(keys[order[i]] > keys[p]);
            }
        }
    }
}

/// Each place stands at one index of the order only.
pub proof fn lemma_order_distinct(keys: Seq<int>, order: Seq<int>, i: int, j: int)
    requires
        is_back_to_front(keys, order),
        0 <= i < order.len(),
        0 <= j < order.len(),
        order[i] == order[j],
    ensures
        i == j,
{
    if i < j {
        assert(edited_before(keys, order[i], order[j]));
    } else if j < i {
        assert(edited_before(keys, order[j], order[i]));
    }
}

/// Numbers as mathematical integers.
pub open spec fn ints(s: Seq<usize>) -> Seq<int> {
    s.map_values(|x: usize| x as int)
}

/// The places `0..keys.len()` in the order in which they are to be edited.
pub fn edit_order(keys: &Vec<usize>) -> (res: Vec<usize>)
    ensures
        ints(res@) == back_to_front(ints(keys@)),
{
    let mut order: Vec<usize> = Vec::new();
    let mut p: usize = 0;
    assert(ints(keys@).take(0) =~= Seq::empty());
    while p < keys.len()
        invariant
            p <= keys.len(),
            ints(order@) == back_to_front(ints(keys@).take(p as int)),
        decreases keys.len() - p,
    {
        let ghost all = ints(keys@);
        let ghost before = all.take(p as int);
        proof {
            lemma_back_to_front(before);
            assert(order@.len() == p);
            assert forall|i: int| 0 <= i < order@.len() implies #[trigger] order@[i] < p by {
                assert(ints(order@)[i] == order@[i] as int);
            }
        }
        let mut at: usize = 0;
        while at < order.len() && keys[order[at]] > keys[p]
            invariant
                p < keys.len(),
                at <= order.len(),
                forall|i: int| 0 <= i < order@.len() ==> #[trigger] order@[i] < p,
                forall|i: int|
                    0 <= i < at ==> keys@[#[trigger] order@[i] as int] > keys@[p as int],
            decreases order.len() - at,
        {
            at = at + 1;
        }
        proof {
            let o = ints(order@);
            let upto = all.take(p + 1);
            assert(upto.drop_last() =~= before);
            assert forall|i: int| 0 <= i < at implies upto[#[trigger] o[i]] > upto[p as int] by {
                assert(o[i] == order@[i] as int);
            }
            if at < o.len() {
                assert(o[at as int] == order@[at as int] as int);
            }
            lemma_ranked_in(upto, o, p as int, at as int);
            assert(ints(order@.insert(at as int, p)) =~= o.insert(at as int, p as int));
        }
        order.insert(at, p);
        p = p + 1;
    }
    assert(ints(keys@).take(p as int) =~= ints(keys@));
    order
}

} // verus!
