//! What holds of the editor whatever keys are pressed.

use crate::coord::{
    aligned, aligned_idx, aligned_line, coord_at, forward_by, lemma_aligned_idx_bounds,
    lemma_coord_at, line_start_of, next_word, past_line_end, previous_word, Pos,
};
use crate::edits::{
    after_delete, after_extend, after_extend_line, after_extend_word, after_insert, after_line,
    after_move, after_paste, after_remove, after_reverse, after_word, before_cursors, fresh,
    insertions, lemma_cursors, pasted_spans, removable, removals, removed_spans, stacked, starts,
    target, typed, typed_spans, word_target, BufferModel, Motion,
};
use crate::idx::clamped;
use crate::laws::{
    law_backspace_text, law_deleted_text, law_next_word, law_paste_undoes_delete,
    law_previous_word, same_seam,
};
use crate::lines::{lemma_line_bounds, line_start};
use crate::mode::{
    accepts, insert_step, is_control_code, mode_step, normal_step, yanks, Key, Mode, StateModel,
};
use crate::order::back_to_front;
use crate::rope::joined;
use vstd::prelude::*;

verus! {

/// Whether all selections of a buffer are valid, and one of them is the
/// primary one.
pub open spec fn sound(m: BufferModel) -> bool {
    m.valid() && 0 <= m.primary < m.spans.len()
}

/// Whether an edit kept the selections: their number, which one is primary,
/// and that they are valid.
pub open spec fn selections_kept(before: BufferModel, after: BufferModel) -> bool {
    &&& after.spans.len() == before.spans.len()
    &&& after.primary == before.primary
    &&& after.valid()
}

proof fn lemma_forward_valid(text: Seq<char>, pos: Pos, n: int)
    requires
        pos.valid(),
        n >= 0,
    ensures
        forward_by(text, pos, n).valid(),
{
    lemma_aligned_idx_bounds(text, pos);
    lemma_coord_at(text, clamped(text, aligned_idx(text, pos) + n));
}

proof fn lemma_typed_spans(m: BufferModel, ch: char, k: int)
    requires
        m.valid(),
        0 <= k,
    ensures
        typed_spans(m, ch, k).len() == m.spans.len(),
        forall|i: int| 0 <= i < m.spans.len() ==> (#[trigger] typed_spans(m, ch, k)[i]).valid(),
    decreases k,
{
    if k > 0 {
        lemma_typed_spans(m, ch, k - 1);
        let before = typed_spans(m, ch, k - 1);
        let text = insertions(m.text, m.cursors(), typed(ch, m.spans.len()), k);
        assert forall|i: int| 0 <= i < m.spans.len() implies (#[trigger] typed_spans(
            m,
            ch,
            k,
        )[i]).valid() by {
            assert(before[i].valid());
            lemma_forward_valid(text, before[i].cursor, 1);
        }
    }
}

/// Typing keeps the selections.
pub proof fn law_typing_keeps_selections(m: BufferModel, ch: char)
    requires
        m.valid(),
    ensures
        selections_kept(m, after_insert(m, ch)),
{
    lemma_typed_spans(m, ch, m.spans.len() as int);
    let new = after_insert(m, ch);
    assert forall|i: int| 0 <= i < new.spans.len() implies (#[trigger] new.spans[i]).valid() by {}
}

proof fn lemma_pasted_spans(m: BufferModel, pieces: Seq<Seq<char>>, extend: bool, k: int)
    requires
        m.valid(),
        0 <= k,
    ensures
        pasted_spans(m, pieces, extend, k).len() == m.spans.len(),
        forall|i: int|
            0 <= i < m.spans.len() ==> (#[trigger] pasted_spans(m, pieces, extend, k)[i]).valid(),
    decreases k,
{
    if k > 0 {
        lemma_pasted_spans(m, pieces, extend, k - 1);
        let before = pasted_spans(m, pieces, extend, k - 1);
        let text = insertions(m.text, m.cursors(), pieces, k);
        if k <= pieces.len() {
            let n = pieces[k - 1].len() as int;
            assert forall|i: int| 0 <= i < m.spans.len() implies (#[trigger] pasted_spans(
                m,
                pieces,
                extend,
                k,
            )[i]).valid() by {
                assert(before[i].valid());
                lemma_forward_valid(text, before[i].cursor, n);
                lemma_forward_valid(text, before[i].anchor, n);
            }
        }
    }
}

/// Pasting keeps the selections.
pub proof fn law_pasting_keeps_selections(
    m: BufferModel,
    stored: Seq<Seq<Seq<char>>>,
    extend: bool,
)
    requires
        m.valid(),
    ensures
        selections_kept(m, after_paste(m, stored, extend)),
{
    let pieces = stored.map_values(|s: Seq<Seq<char>>| stacked(s));
    lemma_pasted_spans(m, pieces, extend, m.spans.len() as int);
    let new = after_paste(m, stored, extend);
    assert forall|i: int| 0 <= i < new.spans.len() implies (#[trigger] new.spans[i]).valid() by {}
}

proof fn lemma_removed_spans(m: BufferModel, ranges: Seq<(int, int)>, k: int)
    requires
        m.valid(),
        removable(m.text, ranges),
        0 <= k <= ranges.len(),
    ensures
        removed_spans(m, ranges, k).len() == m.spans.len(),
        forall|i: int|
            0 <= i < m.spans.len() ==> (#[trigger] removed_spans(m, ranges, k)[i]).valid(),
    decreases k,
{
    if k > 0 {
        lemma_removed_spans(m, ranges, k - 1);
        let before = removed_spans(m, ranges, k - 1);
        let order = back_to_front(starts(ranges));
        let text = removals(m.text, ranges, k - 1);
        let r = ranges[order[k - 1]];
        assert(0 <= r.0 <= r.1);
        assert forall|i: int| 0 <= i < m.spans.len() implies (#[trigger] removed_spans(
            m,
            ranges,
            k,
        )[i]).valid() by {
            assert(before[i].valid());
            lemma_pulled_valid(text, before[i].anchor, r.1 - r.0);
            lemma_pulled_valid(text, before[i].cursor, r.1 - r.0);
        }
    }
}

proof fn lemma_pulled_valid(text: Seq<char>, pos: Pos, n: int)
    requires
        pos.valid(),
        n >= 0,
    ensures
        coord_at(
            text,
            if aligned_idx(text, pos) > n {
                aligned_idx(text, pos) - n
            } else {
                0
            },
        ).valid(),
{
    lemma_aligned_idx_bounds(text, pos);
    lemma_coord_at(
        text,
        if aligned_idx(text, pos) > n {
            aligned_idx(text, pos) - n
        } else {
            0
        },
    );
}

/// Taking ranges out keeps the selections.
pub proof fn law_removing_keeps_selections(m: BufferModel, ranges: Seq<(int, int)>)
    requires
        m.valid(),
        removable(m.text, ranges),
    ensures
        selections_kept(m, after_remove(m, ranges)),
        selections_kept(m, after_remove(m.collapsed(), ranges)),
{
    assert forall|i: int| 0 <= i < m.collapsed().spans.len() implies (
    #[trigger] m.collapsed().spans[i]).valid() by {
        assert(m.spans[i].valid());
    }
    lemma_removed_spans(m, ranges, ranges.len() as int);
    lemma_removed_spans(m.collapsed(), ranges, ranges.len() as int);
    let new = after_remove(m, ranges);
    assert forall|i: int| 0 <= i < new.spans.len() implies (#[trigger] new.spans[i]).valid() by {}
    let new = after_remove(m.collapsed(), ranges);
    assert forall|i: int| 0 <= i < new.spans.len() implies (#[trigger] new.spans[i]).valid() by {}
}

proof fn lemma_moved_valid(text: Seq<char>, motion: Motion, pos: Pos)
    requires
        pos.valid(),
    ensures
        target(text, motion, pos).valid(),
{
    lemma_aligned_idx_bounds(text, pos);
    lemma_forward_valid(text, pos, 1);
    lemma_pulled_valid(text, pos, 1);
    lemma_coord_at(text, 0);
}

/// Moving the cursors keeps the selections.
pub proof fn law_moving_keeps_selections(m: BufferModel, motion: Motion)
    requires
        m.valid(),
    ensures
        selections_kept(m, after_move(m, motion)),
        selections_kept(m, after_extend(m, motion)),
{
    let moved = after_move(m, motion);
    assert forall|i: int| 0 <= i < moved.spans.len() implies (
    #[trigger] moved.spans[i]).valid() by {
        assert(m.spans[i].valid());
        lemma_moved_valid(m.text, motion, m.spans[i].cursor);
    }
    let extended = after_extend(m, motion);
    assert forall|i: int| 0 <= i < extended.spans.len() implies (
    #[trigger] extended.spans[i]).valid() by {
        assert(m.spans[i].valid());
        lemma_moved_valid(m.text, motion, m.spans[i].cursor);
    }
}

proof fn lemma_word_valid(text: Seq<char>, forward: bool, pos: Pos)
    requires
        pos.valid(),
    ensures
        word_target(text, forward, pos).valid(),
        aligned(text, pos).valid(),
{
    let idx = aligned_idx(text, pos);
    lemma_aligned_idx_bounds(text, pos);
    lemma_coord_at(text, idx);
    law_next_word(text, idx);
    law_previous_word(text, idx);
    lemma_coord_at(text, next_word(text, idx));
    lemma_coord_at(text, previous_word(text, idx));
}

/// Moving the cursors by words keeps the selections.
pub proof fn law_words_keep_selections(m: BufferModel, forward: bool)
    requires
        m.valid(),
    ensures
        selections_kept(m, after_word(m, forward)),
        selections_kept(m, after_extend_word(m, forward)),
{
    let moved = after_word(m, forward);
    assert forall|i: int| 0 <= i < moved.spans.len() implies (
    #[trigger] moved.spans[i]).valid() by {
        assert(m.spans[i].valid());
        lemma_word_valid(m.text, forward, m.spans[i].cursor);
    }
    let extended = after_extend_word(m, forward);
    assert forall|i: int| 0 <= i < extended.spans.len() implies (
    #[trigger] extended.spans[i]).valid() by {
        assert(m.spans[i].valid());
        lemma_word_valid(m.text, forward, m.spans[i].cursor);
    }
}

proof fn lemma_line_valid(text: Seq<char>, pos: Pos)
    requires
        pos.valid(),
    ensures
        line_start_of(text, pos).valid(),
        past_line_end(text, pos).valid(),
{
    lemma_aligned_idx_bounds(text, pos);
    let line = aligned_line(text, pos);
    lemma_line_bounds(text, line);
    lemma_coord_at(text, line_start(text, line + 1));
}

/// Selecting lines keeps the selections.
pub proof fn law_lines_keep_selections(m: BufferModel)
    requires
        m.valid(),
    ensures
        selections_kept(m, after_line(m)),
        selections_kept(m, after_extend_line(m)),
{
    let moved = after_line(m);
    assert forall|i: int| 0 <= i < moved.spans.len() implies (
    #[trigger] moved.spans[i]).valid() by {
        assert(m.spans[i].valid());
        lemma_line_valid(m.text, m.spans[i].cursor);
    }
    let extended = after_extend_line(m);
    assert forall|i: int| 0 <= i < extended.spans.len() implies (
    #[trigger] extended.spans[i]).valid() by {
        assert(m.spans[i].valid());
        lemma_line_valid(m.text, m.spans[i].cursor);
        lemma_line_valid(m.text, m.spans[i].anchor);
    }
}

/// Reversing the selections keeps them.
pub proof fn law_reversing_keeps_selections(m: BufferModel)
    requires
        m.valid(),
    ensures
        selections_kept(m, after_reverse(m)),
{
    let new = after_reverse(m);
    assert forall|i: int| 0 <= i < new.spans.len() implies (#[trigger] new.spans[i]).valid() by {
        assert(m.spans[i].valid());
    }
}

/// Every key keeps the selections.
pub proof fn law_keys_keep_selections(
    mode: Mode,
    m: StateModel,
    stored: Seq<Seq<Seq<char>>>,
    key: Key,
)
    requires
        m.buffer.valid(),
        accepts(mode, m, key),
    ensures
        selections_kept(m.buffer, mode_step(mode, m, stored, key).buffer),
{
    let b = m.buffer;
    law_moving_keeps_selections(b, Motion::Backward);
    law_moving_keeps_selections(b, Motion::Forward);
    law_moving_keeps_selections(b, Motion::Down);
    law_moving_keeps_selections(b, Motion::Up);
    law_words_keep_selections(b, true);
    law_words_keep_selections(b, false);
    law_lines_keep_selections(b);
    law_reversing_keeps_selections(b);
    law_pasting_keeps_selections(b, stored, true);
    law_pasting_keeps_selections(b, stored, false);
    if removable(b.text, b.ranges()) {
        law_removing_keeps_selections(b, b.ranges());
    }
    if removable(b.text, before_cursors(b)) {
        law_removing_keeps_selections(b, before_cursors(b));
    }
    if let Key::Char(ch) = key {
        law_typing_keeps_selections(b, ch);
    }
}

/// Whether an editor is in a state to go on with: it is in normal mode, or in
/// insert mode with normal mode to come back to, and its buffer is sound.
pub open spec fn ready(m: StateModel) -> bool {
    &&& m.modes == seq![Mode::Normal] || m.modes == seq![Mode::Normal, Mode::Insert]
    &&& sound(m.buffer)
}

/// An editor with a text that was just opened is ready.
pub proof fn law_opened_is_ready(text: Seq<char>, yanked: Seq<Seq<char>>)
    ensures
        ready(
            StateModel {
                quit: false,
                modes: seq![Mode::Normal],
                buffer: fresh(text),
                yanked,
            },
        ),
{
    let m = fresh(text);
    assert forall|i: int| 0 <= i < m.spans.len() implies (#[trigger] m.spans[i]).valid() by {}
}

/// An editor that is ready has a mode to handle the next key, and is ready
/// again after it.
pub proof fn law_keys_keep_ready(m: StateModel, stored: Seq<Seq<Seq<char>>>, key: Key)
    requires
        ready(m),
        accepts(m.modes.last(), m, key),
    ensures
        m.modes.len() > 0,
        ready(mode_step(m.modes.last(), m, stored, key)),
{
    let mode = m.modes.last();
    let new = mode_step(mode, m, stored, key);
    law_keys_keep_selections(mode, m, stored, key);
    if m.modes == seq![Mode::Normal] {
        assert(m.modes.push(Mode::Insert) =~= seq![Mode::Normal, Mode::Insert]);
        assert(new.modes == m.modes || new.modes == m.modes.push(Mode::Insert));
    } else {
        assert(m.modes.drop_last() =~= seq![Mode::Normal]);
        assert(new.modes == m.modes || new.modes == m.modes.drop_last());
    }
}

/// The state after the first `n` keys, each handled by the mode that is the
/// current one then.  `stored` tells, for each key, the pieces that the yanked
/// texts are stored in when it is pressed.
pub open spec fn after_keys(
    m: StateModel,
    keys: Seq<Key>,
    stored: Seq<Seq<Seq<Seq<char>>>>,
    n: int,
) -> StateModel
    decreases n,
{
    if n <= 0 {
        m
    } else {
        let before = after_keys(m, keys, stored, n - 1);
        mode_step(before.modes.last(), before, stored[n - 1], keys[n - 1])
    }
}

/// The number of keys from the first one on up to one that quits, that one
/// included, or of all keys if none quits.  The first `from` keys did not.
pub open spec fn keys_until_quit(
    m: StateModel,
    keys: Seq<Key>,
    stored: Seq<Seq<Seq<Seq<char>>>>,
    from: int,
) -> int
    decreases keys.len() - from,
{
    if from >= keys.len() {
        keys.len() as int
    } else if after_keys(m, keys, stored, from + 1).quit {
        from + 1
    } else {
        keys_until_quit(m, keys, stored, from + 1)
    }
}

/// The state that a session leaves: it takes one key after the other, until
/// one quits or there are none left.
pub open spec fn session(
    m: StateModel,
    keys: Seq<Key>,
    stored: Seq<Seq<Seq<Seq<char>>>>,
) -> StateModel
    decreases keys.len(),
{
    if keys.len() == 0 {
        m
    } else {
        let next = mode_step(m.modes.last(), m, stored[0], keys[0]);
        if next.quit {
            next
        } else {
            session(next, keys.drop_first(), stored.drop_first())
        }
    }
}

/// The states that a session draws: the first one, and then the one after each
/// key that does not quit.
pub open spec fn states_drawn(
    m: StateModel,
    keys: Seq<Key>,
    stored: Seq<Seq<Seq<Seq<char>>>>,
) -> Seq<StateModel>
    decreases keys.len(),
{
    if keys.len() == 0 {
        seq![m]
    } else {
        let next = mode_step(m.modes.last(), m, stored[0], keys[0]);
        seq![m] + if next.quit {
            Seq::empty()
        } else {
            states_drawn(next, keys.drop_first(), stored.drop_first())
        }
    }
}

/// `keys_until_quit` stops at the first key that quits.
proof fn lemma_until_quit(
    m: StateModel,
    keys: Seq<Key>,
    stored: Seq<Seq<Seq<Seq<char>>>>,
    from: int,
)
    requires
        0 <= from <= keys.len(),
    ensures
        ({
            let q = keys_until_quit(m, keys, stored, from);
            &&& from <= q <= keys.len()
            &&& from < keys.len() ==> from < q
            &&& q < keys.len() ==> after_keys(m, keys, stored, q).quit
            &&& forall|j: int| from < j < q ==> !(#[trigger] after_keys(m, keys, stored, j)).quit
        }),
    decreases keys.len() - from,
{
    if from < keys.len() && !after_keys(m, keys, stored, from + 1).quit {
        lemma_until_quit(m, keys, stored, from + 1);
    }
}

/// The keys after the first one, from the state that the first one leaves.
proof fn lemma_after_rest(
    m: StateModel,
    keys: Seq<Key>,
    stored: Seq<Seq<Seq<Seq<char>>>>,
    n: int,
)
    requires
        keys.len() > 0,
        stored.len() == keys.len(),
        0 <= n < keys.len(),
    ensures
        after_keys(
            after_keys(m, keys, stored, 1),
            keys.drop_first(),
            stored.drop_first(),
            n,
        ) == after_keys(m, keys, stored, n + 1),
    decreases n,
{
    if n > 0 {
        lemma_after_rest(m, keys, stored, n - 1);
        assert(keys.drop_first()[n - 1] == keys[n]);
        assert(stored.drop_first()[n - 1] == stored[n]);
    }
}

/// Keys that are not pressed do not matter.
proof fn lemma_same_keys(
    m: StateModel,
    keys: Seq<Key>,
    stored: Seq<Seq<Seq<Seq<char>>>>,
    others: Seq<Key>,
    stored_others: Seq<Seq<Seq<Seq<char>>>>,
    n: int,
)
    requires
        0 <= n <= keys.len(),
        n <= others.len(),
        stored.len() == keys.len(),
        stored_others.len() == others.len(),
        keys.take(n) == others.take(n),
        stored.take(n) == stored_others.take(n),
    ensures
        forall|j: int|
            0 <= j <= n ==> #[trigger] after_keys(m, keys, stored, j) == after_keys(
                m,
                others,
                stored_others,
                j,
            ),
    decreases n,
{
    if n > 0 {
        assert(keys.take(n - 1) =~= keys.take(n).take(n - 1));
        assert(others.take(n - 1) =~= others.take(n).take(n - 1));
        assert(stored.take(n - 1) =~= stored.take(n).take(n - 1));
        assert(stored_others.take(n - 1) =~= stored_others.take(n).take(n - 1));
        lemma_same_keys(m, keys, stored, others, stored_others, n - 1);
        assert(keys.take(n)[n - 1] == keys[n - 1]);
        assert(others.take(n)[n - 1] == others[n - 1]);
        assert(stored.take(n)[n - 1] == stored[n - 1]);
        assert(stored_others.take(n)[n - 1] == stored_others[n - 1]);
        assert(after_keys(m, keys, stored, n - 1) == after_keys(m, others, stored_others, n - 1));
        assert(after_keys(m, keys, stored, n) == after_keys(m, others, stored_others, n));
    }
}

/// A session leaves the state after the first key that quits, or after the
/// last key if none does.  It draws the state that it starts with, and each
/// state up to that one, but for the one that a key that quits leaves.
pub proof fn law_session(m: StateModel, keys: Seq<Key>, stored: Seq<Seq<Seq<Seq<char>>>>)
    requires
        stored.len() == keys.len(),
    ensures
        ({
            let q = keys_until_quit(m, keys, stored, 0);
            let last = after_keys(m, keys, stored, q);
            &&& 0 <= q <= keys.len()
            &&& forall|j: int| 0 < j < q ==> !(#[trigger] after_keys(m, keys, stored, j)).quit
            &&& q < keys.len() ==> q > 0 && last.quit
            &&& session(m, keys, stored) == last
            &&& states_drawn(m, keys, stored) == Seq::new(
                (if q > 0 && last.quit {
                    q
                } else {
                    q + 1
                }) as nat,
                |j: int| after_keys(m, keys, stored, j),
            )
        }),
    decreases keys.len(),
{
    lemma_until_quit(m, keys, stored, 0);
    let q = keys_until_quit(m, keys, stored, 0);
    let last = after_keys(m, keys, stored, q);
    let drawn = Seq::new(
        (if q > 0 && last.quit {
            q
        } else {
            q + 1
        }) as nat,
        |j: int| after_keys(m, keys, stored, j),
    );
    if keys.len() == 0 {
        assert(states_drawn(m, keys, stored) =~= drawn);
    } else {
        reveal_with_fuel(after_keys, 2);
        let next = after_keys(m, keys, stored, 1);
        if next.quit {
            assert(q == 1);
            assert(states_drawn(m, keys, stored) =~= drawn);
        } else {
            let (rest, stored_rest) = (keys.drop_first(), stored.drop_first());
            law_session(next, rest, stored_rest);
            let p = keys_until_quit(next, rest, stored_rest, 0);
            assert forall|j: int| 0 <= j <= rest.len() implies #[trigger] after_keys(
                next,
                rest,
                stored_rest,
                j,
            ) == after_keys(m, keys, stored, j + 1) by {
                lemma_after_rest(m, keys, stored, j);
            }
            if p + 1 < q {
                assert(!after_keys(m, keys, stored, p + 1).quit);
                assert(after_keys(next, rest, stored_rest, p).quit);
            }
            if q < p + 1 {
                assert(!after_keys(next, rest, stored_rest, q - 1).quit);
            }
            assert(p + 1 == q);
            let later = states_drawn(next, rest, stored_rest);
            assert forall|j: int| 0 < j < drawn.len() implies #[trigger] drawn[j]
                == later[j - 1] by {
                assert(later[j - 1] == after_keys(next, rest, stored_rest, j - 1));
            }
            assert(seq![m] + later =~= drawn);
        }
    }
}

/// No key after the first one that quits changes anything: neither the state
/// that a session leaves, nor what it draws.
pub proof fn law_session_ends(
    m: StateModel,
    keys: Seq<Key>,
    stored: Seq<Seq<Seq<Seq<char>>>>,
    others: Seq<Key>,
    stored_others: Seq<Seq<Seq<Seq<char>>>>,
)
    requires
        stored.len() == keys.len(),
        stored_others.len() == others.len(),
        keys.len() > 0,
        session(m, keys, stored).quit,
        ({
            let q = keys_until_quit(m, keys, stored, 0);
            &&& q <= others.len()
            &&& keys.take(q) == others.take(q)
            &&& stored.take(q) == stored_others.take(q)
        }),
    ensures
        session(m, others, stored_others) == session(m, keys, stored),
        states_drawn(m, others, stored_others) == states_drawn(m, keys, stored),
{
    let q = keys_until_quit(m, keys, stored, 0);
    law_session(m, keys, stored);
    law_session(m, others, stored_others);
    lemma_until_quit(m, keys, stored, 0);
    lemma_until_quit(m, others, stored_others, 0);
    lemma_same_keys(m, keys, stored, others, stored_others, q);
    let p = keys_until_quit(m, others, stored_others, 0);
    assert(after_keys(m, others, stored_others, q).quit);
    if p < q {
        assert(after_keys(m, keys, stored, p) == after_keys(m, others, stored_others, p));
    }
    assert(p == q);
    assert(states_drawn(m, others, stored_others) =~= states_drawn(m, keys, stored));
}

/// Whether every key of a session is accepted when it is pressed.
pub open spec fn all_accepted(
    m: StateModel,
    keys: Seq<Key>,
    stored: Seq<Seq<Seq<Seq<char>>>>,
) -> bool {
    forall|j: int|
        0 <= j < keys_until_quit(m, keys, stored, 0) ==> {
            let before = #[trigger] after_keys(m, keys, stored, j);
            accepts(before.modes.last(), before, keys[j])
        }
}

/// An editor that is ready is so throughout a session: at each key it has a
/// mode to handle it, and it is ready when the session is over.
pub proof fn law_session_keeps_ready(
    m: StateModel,
    keys: Seq<Key>,
    stored: Seq<Seq<Seq<Seq<char>>>>,
)
    requires
        ready(m),
        stored.len() == keys.len(),
        all_accepted(m, keys, stored),
    ensures
        forall|j: int|
            0 <= j <= keys_until_quit(m, keys, stored, 0) ==> {
                let state = #[trigger] after_keys(m, keys, stored, j);
                ready(state) && state.modes.len() > 0
            },
        ready(session(m, keys, stored)),
{
    let q = keys_until_quit(m, keys, stored, 0);
    law_session(m, keys, stored);
    assert forall|j: int| 0 <= j <= q implies {
        let state = #[trigger] after_keys(m, keys, stored, j);
        ready(state) && state.modes.len() > 0
    } by {
        lemma_ready_after(m, keys, stored, j);
    }
}

proof fn lemma_ready_after(
    m: StateModel,
    keys: Seq<Key>,
    stored: Seq<Seq<Seq<Seq<char>>>>,
    n: int,
)
    requires
        ready(m),
        all_accepted(m, keys, stored),
        0 <= n <= keys_until_quit(m, keys, stored, 0),
    ensures
        ready(after_keys(m, keys, stored, n)),
    decreases n,
{
    if n > 0 {
        lemma_ready_after(m, keys, stored, n - 1);
        law_keys_keep_ready(after_keys(m, keys, stored, n - 1), stored[n - 1], keys[n - 1]);
    }
}

/// In normal mode all keys are accepted but for the two that delete, in
/// insert mode all but the backspace.
pub proof fn law_accepted_keys(mode: Mode, m: StateModel, key: Key)
    ensures
        mode == Mode::Normal && key != Key::Char('d') && key != Key::Char('c') ==> accepts(
            mode,
            m,
            key,
        ),
        mode == Mode::Insert && key != Key::Backspace ==> accepts(mode, m, key),
{
}

/// With one selection every key is accepted, but for a backspace at the start
/// of the text.
pub proof fn law_one_selection_accepted(mode: Mode, m: StateModel, key: Key)
    requires
        m.buffer.valid(),
        m.buffer.spans.len() == 1,
    ensures
        accepts(mode, m, key) <==> !(mode == Mode::Insert && key == Key::Backspace
            && m.buffer.cursors()[0] == 0),
{
    law_deleted_text(m.buffer);
    law_backspace_text(m.buffer);
    lemma_cursors(m.buffer);
}

/// Only typing, a backspace, deleting and pasting change the text.
pub proof fn law_text_changes(
    mode: Mode,
    m: StateModel,
    stored: Seq<Seq<Seq<char>>>,
    key: Key,
)
    requires
        mode_step(mode, m, stored, key).buffer.text != m.buffer.text,
    ensures
        match mode {
            Mode::Insert => key == Key::Backspace || (key matches Key::Char(ch) && (ch == '\n'
                || !is_control_code(ch))),
            Mode::Normal => key == Key::Char('d') || key == Key::Char('c') || key == Key::Char('p')
                || key == Key::Char('P'),
        },
{
}

/// Only `q` in normal mode quits, and no key takes that back.
pub proof fn law_quit(mode: Mode, m: StateModel, stored: Seq<Seq<Seq<char>>>, key: Key)
    ensures
        mode_step(mode, m, stored, key).quit == (m.quit || (mode == Mode::Normal && key
            == Key::Char('q'))),
{
}

/// Only deleting and yanking change what is yanked, and each of them yanks
/// what is selected.
pub proof fn law_yanked(mode: Mode, m: StateModel, stored: Seq<Seq<Seq<char>>>, key: Key)
    ensures
        mode_step(mode, m, stored, key).yanked == (if yanks(mode, key) {
            m.buffer.selected()
        } else {
            m.yanked
        }),
{
}

/// Entering insert mode and leaving it again changes nothing.
pub proof fn law_insert_and_escape(m: StateModel, stored: Seq<Seq<Seq<char>>>)
    ensures
        insert_step(normal_step(m, stored, Key::Char('i')), Key::Esc) == m,
{
    assert(m.modes.push(Mode::Insert).drop_last() =~= m.modes);
}

/// `c` does what `d` and then `i` do.
pub proof fn law_change(
    m: StateModel,
    stored: Seq<Seq<Seq<char>>>,
    stored_after: Seq<Seq<Seq<char>>>,
)
    ensures
        normal_step(m, stored, Key::Char('c')) == normal_step(
            normal_step(m, stored, Key::Char('d')),
            stored_after,
            Key::Char('i'),
        ),
{
}

/// A key that extends the selections takes the cursors to where the key that
/// moves them does.
pub proof fn law_extend_like_move(m: BufferModel, motion: Motion, forward: bool)
    ensures
        after_extend(m, motion).cursors() == after_move(m, motion).cursors(),
        after_extend_word(m, forward).cursors() == after_word(m, forward).cursors(),
{
    assert(after_extend(m, motion).cursors() =~= after_move(m, motion).cursors());
    assert(after_extend_word(m, forward).cursors() =~= after_word(m, forward).cursors());
}

/// With one selection, `d` and then `p` bring the text back, and select what
/// was selected, where it was.
///
/// The cursor is the greater end or lies in the text, the pieces of what was
/// deleted read the same in either order, and the deletion makes or breaks no
/// CRLF where the selection started.
pub proof fn law_delete_and_paste(
    m: StateModel,
    stored: Seq<Seq<Seq<char>>>,
    pieces: Seq<Seq<char>>,
)
    requires
        m.buffer.valid(),
        m.buffer.spans.len() == 1,
        m.buffer.spans[0].start(m.buffer.text) < m.buffer.cursors()[0] || m.buffer.spans[0].cursor
            == aligned(m.buffer.text, m.buffer.spans[0].cursor),
        same_seam(
            m.buffer.text,
            after_delete(m.buffer).text,
            m.buffer.spans[0].start(m.buffer.text),
        ),
        stacked(pieces) == joined(pieces),
        joined(pieces) == normal_step(m, stored, Key::Char('d')).yanked[0],
    ensures
        ({
            let back = normal_step(
                normal_step(m, stored, Key::Char('d')),
                seq![pieces],
                Key::Char('p'),
            );
            &&& back.buffer.text == m.buffer.text
            &&& back.buffer.ranges() == m.buffer.ranges()
            &&& back.buffer.selected() == m.buffer.selected()
        }),
{
    law_paste_undoes_delete(m.buffer, pieces, false);
}

} // verus!
