//! Runs of one cell's state machine, and the ordering laws of its
//! broadcast stream.
//!
//! A cell evolves under two kinds of input: edit attempts from clients
//! and the sweeper's once-a-second ticks. `cell_run` folds a sequence
//! of inputs into the final cell state and the events broadcast along
//! the way, in order. The laws below hold of every run: the broadcast
//! alone determines the cell's text, mutations between an acquire and
//! the next release all carry the acquirer's id, and a release comes
//! only after three ticks without a refresh.

use vstd::prelude::*;
use crate::cell::CellState;
use crate::cell::OpView;
use crate::cell::apply_op;
use crate::cell::edit_applies;
use crate::cell::edited_cell;
use crate::cell::fresh_lock;
use crate::cell::LOCK_DURATION_SECS;
use crate::msg::MsgView;
use crate::msg::client_of;
use crate::msg::is_text_mutation;
use crate::sweeper::cell_release_at;
use crate::sweeper::tick_releases;
use crate::sweeper::ticked_cell;
use crate::table::lock_owner;
use crate::table::msg_op;
use crate::table::op_msg;

verus! {

/// One input to a cell: an edit attempt by a client, or a sweeper
/// tick.
pub enum CellInput {
    Edit { client_id: u64, op: OpView },
    Tick,
}

/// One step of the cell state machine: the next cell state and the
/// events broadcast by that step, in order.
pub open spec fn cell_step(cell: CellState, rc: (u64, u64), inp: CellInput)
    -> (CellState, Seq<MsgView>)
{
    match inp {
        CellInput::Edit { client_id, op } => {
            if edit_applies(cell, client_id, op) {
                (
                    edited_cell(cell, client_id, op),
                    seq![
                        op_msg(client_id, rc, op),
                        MsgView::AcquireLock { client_id, cell: rc },
                    ],
                )
            } else {
                (cell, Seq::empty())
            }
        },
        CellInput::Tick => (ticked_cell(cell), cell_release_at(cell, rc.0, rc.1)),
    }
}

/// A whole run: fold the inputs over the cell, concatenating each
/// step's events in order.
pub open spec fn cell_run(cell: CellState, rc: (u64, u64), inputs: Seq<CellInput>)
    -> (CellState, Seq<MsgView>)
    decreases inputs.len(),
{
    if inputs.len() == 0 {
        (cell, Seq::empty())
    } else {
        let head = cell_step(cell, rc, inputs[0]);
        let rest = cell_run(head.0, rc, inputs.skip(1));
        (rest.0, head.1 + rest.1)
    }
}

/// The text obtained by replaying a broadcast stream for one cell:
/// apply each mutation event in broadcast order, ignore everything
/// else.
pub open spec fn replay_text(init: Seq<u8>, events: Seq<MsgView>) -> Seq<u8>
    decreases events.len(),
{
    if events.len() == 0 {
        init
    } else {
        let next = if is_text_mutation(events[0]) {
            apply_op(init, msg_op(events[0]))
        } else {
            init
        };
        replay_text(next, events.skip(1))
    }
}

proof fn lemma_replay_concat(init: Seq<u8>, e1: Seq<MsgView>, e2: Seq<MsgView>)
    ensures
        replay_text(init, e1 + e2) == replay_text(replay_text(init, e1), e2),
    decreases e1.len(),
{
    if e1.len() == 0 {
        assert(e1 + e2 =~= e2);
    } else {
        let next = if is_text_mutation(e1[0]) {
            apply_op(init, msg_op(e1[0]))
        } else {
            init
        };
        assert((e1 + e2).skip(1) =~= e1.skip(1) + e2);
        assert((e1 + e2)[0] == e1[0]);
        lemma_replay_concat(next, e1.skip(1), e2);
    }
}


proof fn lemma_replay_edit_events(init: Seq<u8>, client_id: u64, rc: (u64, u64), op: OpView)
    ensures
        replay_text(init, seq![
            op_msg(client_id, rc, op),
            MsgView::AcquireLock { client_id, cell: rc },
        ]) == apply_op(init, op),
{
    reveal_with_fuel(replay_text, 4);
    let m = op_msg(client_id, rc, op);
    let acq = MsgView::AcquireLock { client_id, cell: rc };
    let es = seq![m, acq];
    assert(es[0] == m);
    assert(is_text_mutation(m));
    assert(msg_op(m) == op);
    assert(es.skip(1) =~= seq![acq]);
    assert(seq![acq][0] == acq);
    assert(seq![acq].skip(1) =~= Seq::<MsgView>::empty());
    assert(replay_text(apply_op(init, op), seq![acq]) == apply_op(init, op));
    assert(replay_text(init, es) == replay_text(apply_op(init, op), es.skip(1)));
}

proof fn lemma_replay_release_event(init: Seq<u8>, rc: (u64, u64))
    ensures
        replay_text(init, seq![MsgView::ReleaseLock { cell: rc }]) == init,
{
    reveal_with_fuel(replay_text, 3);
    let rel = MsgView::ReleaseLock { cell: rc };
    assert(seq![rel][0] == rel);
    assert(!is_text_mutation(rel));
    assert(seq![rel].skip(1) =~= Seq::<MsgView>::empty());
}

proof fn lemma_stream_edit_events(owner: Option<u64>, client_id: u64, rc: (u64, u64), op: OpView)
    requires
        owner is None || owner == Option::Some(client_id),
    ensures
        stream_ok(seq![
            op_msg(client_id, rc, op),
            MsgView::AcquireLock { client_id, cell: rc },
        ], owner),
        owner_after(seq![
            op_msg(client_id, rc, op),
            MsgView::AcquireLock { client_id, cell: rc },
        ], owner) == Option::Some(client_id),
{
    reveal_with_fuel(stream_ok, 4);
    reveal_with_fuel(owner_after, 4);
    let m = op_msg(client_id, rc, op);
    let acq = MsgView::AcquireLock { client_id, cell: rc };
    let es = seq![m, acq];
    assert(es[0] == m);
    assert(is_text_mutation(m) && !is_lock_marker(m));
    assert(client_of(m) == client_id);
    assert(es.skip(1) =~= seq![acq]);
    assert(seq![acq][0] == acq);
    assert(seq![acq].skip(1) =~= Seq::<MsgView>::empty());
    assert(stream_ok(Seq::<MsgView>::empty(), Option::Some(client_id)));
    assert(stream_ok(seq![acq], owner));
    assert(owner_after(seq![acq], owner) == Option::Some(client_id));
}

proof fn lemma_stream_release_event(owner: Option<u64>, rc: (u64, u64))
    ensures
        stream_ok(seq![MsgView::ReleaseLock { cell: rc }], owner),
        owner_after(seq![MsgView::ReleaseLock { cell: rc }], owner) == Option::<u64>::None,
{
    reveal_with_fuel(stream_ok, 3);
    reveal_with_fuel(owner_after, 3);
    let rel = MsgView::ReleaseLock { cell: rc };
    assert(seq![rel][0] == rel);
    assert(seq![rel].skip(1) =~= Seq::<MsgView>::empty());
}

/// Replaying the broadcast reproduces the cell: for any cell and any
/// run, the text states observed by replaying the admitted operations
/// in broadcast order, starting from the cell's initial text, end in
/// exactly the text the cell itself holds. The broadcast is a faithful
/// total order of the cell's mutations.
pub proof fn lemma_broadcast_determines_text(cell: CellState, rc: (u64, u64),
    inputs: Seq<CellInput>)
    ensures
        cell_run(cell, rc, inputs).0.text == replay_text(cell.text, cell_run(cell, rc, inputs).1),
    decreases inputs.len(),
{
    if inputs.len() == 0 {
    } else {
        let head = cell_step(cell, rc, inputs[0]);
        let rest = cell_run(head.0, rc, inputs.skip(1));
        lemma_broadcast_determines_text(head.0, rc, inputs.skip(1));
        lemma_replay_concat(cell.text, head.1, rest.1);
        match inputs[0] {
            CellInput::Edit { client_id, op } => {
                if edit_applies(cell, client_id, op) {
                    lemma_replay_edit_events(cell.text, client_id, rc, op);
                    assert(replay_text(cell.text, head.1) == head.0.text);
                } else {
                    assert(head.1 =~= Seq::<MsgView>::empty());
                }
            },
            CellInput::Tick => {
                if tick_releases(cell) {
                    lemma_replay_release_event(cell.text, rc);
                    assert(replay_text(cell.text, head.1) == head.0.text);
                } else {
                    assert(head.1 =~= Seq::<MsgView>::empty());
                }
            },
        }
    }
}

/// Whether an event marks a lock transition.
pub open spec fn is_lock_marker(m: MsgView) -> bool {
    m is AcquireLock || m is ReleaseLock
}

/// The lock owner after a stream of events, starting from `owner`:
/// acquires and releases set it, nothing else moves it.
pub open spec fn owner_after(es: Seq<MsgView>, owner: Option<u64>) -> Option<u64>
    decreases es.len(),
{
    if es.len() == 0 {
        owner
    } else {
        let next = match es[0] {
            MsgView::AcquireLock { client_id, .. } => Option::Some(client_id),
            MsgView::ReleaseLock { .. } => Option::<u64>::None,
            _ => owner,
        };
        owner_after(es.skip(1), next)
    }
}

/// Stream discipline of one cell's broadcast, read left to right with
/// `owner` the current lock holder: every mutation is by the current
/// owner (or by the first writer of an unlocked cell), and every
/// acquire is by the owner or a first writer.
pub open spec fn stream_ok(es: Seq<MsgView>, owner: Option<u64>) -> bool
    decreases es.len(),
{
    if es.len() == 0 {
        true
    } else {
        let head_ok = match es[0] {
            MsgView::AcquireLock { client_id, .. } =>
                owner is None || owner == Option::Some(client_id),
            MsgView::ReleaseLock { .. } => true,
            m => !is_text_mutation(m)
                || owner is None || owner == Option::Some(client_of(m)),
        };
        let next = match es[0] {
            MsgView::AcquireLock { client_id, .. } => Option::Some(client_id),
            MsgView::ReleaseLock { .. } => Option::<u64>::None,
            _ => owner,
        };
        head_ok && stream_ok(es.skip(1), next)
    }
}

proof fn lemma_stream_ok_concat(e1: Seq<MsgView>, e2: Seq<MsgView>, owner: Option<u64>)
    requires
        stream_ok(e1, owner),
        stream_ok(e2, owner_after(e1, owner)),
    ensures
        stream_ok(e1 + e2, owner),
    decreases e1.len(),
{
    if e1.len() == 0 {
        assert(e1 + e2 =~= e2);
    } else {
        let next = match e1[0] {
            MsgView::AcquireLock { client_id, .. } => Option::Some(client_id),
            MsgView::ReleaseLock { .. } => Option::<u64>::None,
            _ => owner,
        };
        assert((e1 + e2)[0] == e1[0]);
        assert((e1 + e2).skip(1) =~= e1.skip(1) + e2);
        lemma_stream_ok_concat(e1.skip(1), e2, next);
    }
}

/// Every run's broadcast obeys the stream discipline, starting from
/// the cell's current lock owner, and the stream determines the final
/// owner.
pub proof fn lemma_run_stream_ok(cell: CellState, rc: (u64, u64), inputs: Seq<CellInput>)
    ensures
        stream_ok(cell_run(cell, rc, inputs).1, lock_owner(cell.lock)),
        lock_owner(cell_run(cell, rc, inputs).0.lock)
            == owner_after(cell_run(cell, rc, inputs).1, lock_owner(cell.lock)),
    decreases inputs.len(),
{
    if inputs.len() == 0 {
    } else {
        let head = cell_step(cell, rc, inputs[0]);
        let rest = cell_run(head.0, rc, inputs.skip(1));
        lemma_run_stream_ok(head.0, rc, inputs.skip(1));
        match inputs[0] {
            CellInput::Edit { client_id, op } => {
                if edit_applies(cell, client_id, op) {
                    lemma_stream_edit_events(lock_owner(cell.lock), client_id, rc, op);
                    assert(stream_ok(head.1, lock_owner(cell.lock)));
                    assert(owner_after(head.1, lock_owner(cell.lock))
                        == lock_owner(head.0.lock));
                    lemma_stream_ok_concat(head.1, rest.1, lock_owner(cell.lock));
                    lemma_owner_after_concat(head.1, rest.1, lock_owner(cell.lock));
                } else {
                    assert(head.1 + rest.1 =~= rest.1);
                }
            },
            CellInput::Tick => {
                if tick_releases(cell) {
                    lemma_stream_release_event(lock_owner(cell.lock), rc);
                    assert(stream_ok(head.1, lock_owner(cell.lock)));
                    assert(owner_after(head.1, lock_owner(cell.lock))
                        == lock_owner(head.0.lock));
                    lemma_stream_ok_concat(head.1, rest.1, lock_owner(cell.lock));
                    lemma_owner_after_concat(head.1, rest.1, lock_owner(cell.lock));
                } else {
                    assert(head.1 + rest.1 =~= rest.1);
                    assert(lock_owner(head.0.lock) == lock_owner(cell.lock));
                }
            },
        }
    }
}

proof fn lemma_owner_after_concat(e1: Seq<MsgView>, e2: Seq<MsgView>, owner: Option<u64>)
    ensures
        owner_after(e1 + e2, owner) == owner_after(e2, owner_after(e1, owner)),
    decreases e1.len(),
{
    if e1.len() == 0 {
        assert(e1 + e2 =~= e2);
    } else {
        let next = match e1[0] {
            MsgView::AcquireLock { client_id, .. } => Option::Some(client_id),
            MsgView::ReleaseLock { .. } => Option::<u64>::None,
            _ => owner,
        };
        assert((e1 + e2)[0] == e1[0]);
        assert((e1 + e2).skip(1) =~= e1.skip(1) + e2);
        lemma_owner_after_concat(e1.skip(1), e2, next);
    }
}

proof fn lemma_stream_window(es: Seq<MsgView>, owner: u64, j: int)
    requires
        stream_ok(es, Option::Some(owner)),
        0 <= j < es.len(),
        forall|k: int| 0 <= k < j ==> !((#[trigger] es[k]) is ReleaseLock),
        is_text_mutation(es[j]),
    ensures
        client_of(es[j]) == owner,
    decreases j,
{
    if j == 0 {
    } else {
        // whatever es[0] is — a refresh acquire (necessarily by the
        // owner), a mutation, or anything else but a release — the
        // owner is unchanged afterwards
        assert(!(es[0] is ReleaseLock));
        if es[0] is AcquireLock {
            assert(client_of(es[0]) == owner);
        }
        assert(es.skip(1)[j - 1] == es[j]);
        assert forall|k: int| 0 <= k < j - 1 implies
            !((#[trigger] es.skip(1)[k]) is ReleaseLock) by {
            assert(es.skip(1)[k] == es[k + 1]);
        }
        lemma_stream_window(es.skip(1), owner, j - 1);
    }
}

/// Exclusive write window: in any run's broadcast, between an
/// `AcquireLock` by client `a` and the next `ReleaseLock`, every text
/// mutation carries `client_id == a` — intervening acquires are only
/// the owner's own refreshes.
pub proof fn lemma_exclusive_write_window(cell: CellState, rc: (u64, u64),
    inputs: Seq<CellInput>, i: int, j: int)
    requires
        ({
            let es = cell_run(cell, rc, inputs).1;
            &&& 0 <= i < j < es.len()
            &&& es[i] is AcquireLock
            &&& forall|k: int| i < k < j ==> !((#[trigger] es[k]) is ReleaseLock)
            &&& is_text_mutation(es[j])
        }),
    ensures
        client_of(cell_run(cell, rc, inputs).1[j])
            == client_of(cell_run(cell, rc, inputs).1[i]),
{
    let es = cell_run(cell, rc, inputs).1;
    lemma_run_stream_ok(cell, rc, inputs);
    lemma_stream_suffix(es, lock_owner(cell.lock), i, j);
}

proof fn lemma_stream_suffix(es: Seq<MsgView>, owner: Option<u64>, i: int, j: int)
    requires
        stream_ok(es, owner),
        0 <= i < j < es.len(),
        es[i] is AcquireLock,
        forall|k: int| i < k < j ==> !((#[trigger] es[k]) is ReleaseLock),
        is_text_mutation(es[j]),
    ensures
        client_of(es[j]) == client_of(es[i]),
    decreases i,
{
    if i == 0 {
        let a = client_of(es[0]);
        let next = match es[0] {
            MsgView::AcquireLock { client_id, .. } => Option::Some(client_id),
            MsgView::ReleaseLock { .. } => Option::<u64>::None,
            _ => owner,
        };
        assert(next == Option::Some(a));
        assert(es.skip(1)[j - 1] == es[j]);
        assert forall|k: int| 0 <= k < j - 1 implies
            !((#[trigger] es.skip(1)[k]) is ReleaseLock) by {
            assert(es.skip(1)[k] == es[k + 1]);
        }
        lemma_stream_window(es.skip(1), a, j - 1);
    } else {
        let next = match es[0] {
            MsgView::AcquireLock { client_id, .. } => Option::Some(client_id),
            MsgView::ReleaseLock { .. } => Option::<u64>::None,
            _ => owner,
        };
        assert(es.skip(1)[i - 1] == es[i]);
        assert(es.skip(1)[j - 1] == es[j]);
        assert forall|k: int| i - 1 < k < j - 1 implies
            !((#[trigger] es.skip(1)[k]) is ReleaseLock) by {
            assert(es.skip(1)[k] == es[k + 1]);
        }
        lemma_stream_suffix(es.skip(1), next, i - 1, j - 1);
    }
}

/// Ticks in an input sequence.
pub open spec fn tick_count(inputs: Seq<CellInput>) -> nat
    decreases inputs.len(),
{
    if inputs.len() == 0 {
        0
    } else {
        (if inputs[0] is Tick { 1nat } else { 0nat }) + tick_count(inputs.skip(1))
    }
}

/// Timer grace: an admitted edit leaves a fresh lock of three
/// seconds, and a run containing fewer than three ticks can never
/// broadcast a `ReleaseLock` for the cell. So when the sweeper emits a
/// release, at least three ticks — about three seconds — have passed
/// since the cell's most recent admitted edit.
pub proof fn lemma_release_needs_three_ticks(cell: CellState, rc: (u64, u64),
    inputs: Seq<CellInput>)
    requires
        tick_count(inputs) < 3,
        cell.lock is None || (cell.lock->Some_0.duration_secs as int) > tick_count(inputs),
    ensures
        forall|k: int| 0 <= k < cell_run(cell, rc, inputs).1.len() ==>
            !(#[trigger] cell_run(cell, rc, inputs).1[k] is ReleaseLock),
    decreases inputs.len(),
{
    if inputs.len() == 0 {
    } else {
        let head = cell_step(cell, rc, inputs[0]);
        let rest = cell_run(head.0, rc, inputs.skip(1));
        let es = cell_run(cell, rc, inputs).1;
        match inputs[0] {
            CellInput::Edit { client_id, op } => {
                if edit_applies(cell, client_id, op) {
                    assert(head.0.lock == Option::Some(fresh_lock(client_id)));
                    lemma_release_needs_three_ticks(head.0, rc, inputs.skip(1));
                } else {
                    lemma_release_needs_three_ticks(head.0, rc, inputs.skip(1));
                }
            },
            CellInput::Tick => {
                assert(!tick_releases(cell));
                assert(head.1 =~= Seq::<MsgView>::empty());
                lemma_release_needs_three_ticks(head.0, rc, inputs.skip(1));
            },
        }
        assert forall|k: int| 0 <= k < es.len() implies !(#[trigger] es[k] is ReleaseLock) by {
            if k < head.1.len() {
                assert(es[k] == head.1[k]);
            } else {
                assert(es[k] == rest.1[k - head.1.len()]);
            }
        }
    }
}

/// Whether a cell's lock, if held, has at most the full grace window
/// remaining.
pub open spec fn lock_within_grace(cell: CellState) -> bool {
    match cell.lock {
        Option::None => true,
        Option::Some(l) => l.duration_secs <= LOCK_DURATION_SECS,
    }
}

/// The grace window is an upper bound: however a cell is driven,
/// `remaining_seconds` stays between zero and the full window while a
/// lock is held — edits reset it to the window, ticks only lower it.
pub proof fn lemma_lock_duration_bounded(cell: CellState, rc: (u64, u64),
    inputs: Seq<CellInput>)
    requires
        lock_within_grace(cell),
    ensures
        lock_within_grace(cell_run(cell, rc, inputs).0),
    decreases inputs.len(),
{
    if inputs.len() == 0 {
    } else {
        let head = cell_step(cell, rc, inputs[0]);
        lemma_lock_duration_bounded(head.0, rc, inputs.skip(1));
    }
}

} // verus!
