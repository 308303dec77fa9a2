//! Whole-table runs: client messages interleaved with sweeper passes,
//! and the projection law that ties them to the single-cell machine.
//!
//! `table_sys_run` folds a sequence of decoded client messages and
//! sweeper passes over a table, concatenating the broadcast events in
//! order — the order every subscriber observes. The projection law
//! says that, as long as no rows are inserted (row insertion renames
//! cells), each cell of the grid evolves exactly as its own state
//! machine run on its own slice of the inputs, and the table's
//! broadcast filtered to that cell is exactly the cell machine's
//! broadcast. Through it, the per-cell ordering laws — replay
//! faithfulness, the exclusive write window, the timer grace — apply
//! to every cell of every whole-table run.

use vstd::prelude::*;
use crate::cell::CellState;
use crate::msg::MsgView;
use crate::msg::cell_of;
use crate::msg::is_text_mutation;
use crate::runs::CellInput;
use crate::runs::cell_run;
use crate::runs::cell_step;
use crate::runs::replay_text;
use crate::runs::tick_count;
use crate::sweeper::cell_release_at;
use crate::sweeper::grid_release_events;
use crate::sweeper::grid_release_events_to;
use crate::sweeper::row_release_events_to;
use crate::sweeper::swept_cells;
use crate::sweeper::ticked_cell;
use crate::table::TableView;
use crate::table::lemma_table_edit_is_cell_step;
use crate::table::msg_op;
use crate::table::table_step;

verus! {

/// One input to a whole table: a decoded client message carrying the
/// sender's server-assigned id, or one sweeper pass.
pub enum TableInput {
    Client { client_id: u64, msg: MsgView },
    Sweep,
}

/// One step of the whole table.
pub open spec fn table_sys_step(t: TableView, inp: TableInput) -> (TableView, Seq<MsgView>) {
    match inp {
        TableInput::Client { client_id, msg } => table_step(t, client_id, msg),
        TableInput::Sweep => (
            TableView { width: t.width, cells: swept_cells(t.cells) },
            grid_release_events(t.cells),
        ),
    }
}

/// A whole run of the table, with the broadcast in publication order.
pub open spec fn table_sys_run(t: TableView, inputs: Seq<TableInput>)
    -> (TableView, Seq<MsgView>)
    decreases inputs.len(),
{
    if inputs.len() == 0 {
        (t, Seq::empty())
    } else {
        let head = table_sys_step(t, inputs[0]);
        let rest = table_sys_run(head.0, inputs.skip(1));
        (rest.0, head.1 + rest.1)
    }
}

/// Whether an event addresses cell `rc`.
pub open spec fn addresses(m: MsgView, rc: (u64, u64)) -> bool {
    (is_text_mutation(m) || m is AcquireLock || m is ReleaseLock) && cell_of(m) == rc
}

/// The subsequence of a broadcast addressing cell `rc`, in order.
pub open spec fn events_at(es: Seq<MsgView>, rc: (u64, u64)) -> Seq<MsgView>
    decreases es.len(),
{
    if es.len() == 0 {
        Seq::empty()
    } else {
        let rest = events_at(es.skip(1), rc);
        if addresses(es[0], rc) {
            seq![es[0]] + rest
        } else {
            rest
        }
    }
}

/// The inputs cell `rc` experiences during a table run: its own edit
/// attempts, and every sweeper pass as a tick.
pub open spec fn cell_inputs_at(inputs: Seq<TableInput>, rc: (u64, u64)) -> Seq<CellInput>
    decreases inputs.len(),
{
    if inputs.len() == 0 {
        Seq::empty()
    } else {
        let rest = cell_inputs_at(inputs.skip(1), rc);
        match inputs[0] {
            TableInput::Client { client_id, msg } => {
                if is_text_mutation(msg) && cell_of(msg) == rc {
                    seq![CellInput::Edit { client_id, op: msg_op(msg) }] + rest
                } else {
                    rest
                }
            },
            TableInput::Sweep => seq![CellInput::Tick] + rest,
        }
    }
}

/// Whether a run contains no row insertion: the case in which every
/// cell keeps its coordinates for the whole run.
pub open spec fn no_row_insertions(inputs: Seq<TableInput>) -> bool {
    forall|i: int| 0 <= i < inputs.len() ==> !(match #[trigger] inputs[i] {
        TableInput::Client { msg, .. } => msg is InsertRows,
        TableInput::Sweep => false,
    })
}

proof fn lemma_events_at_concat(a: Seq<MsgView>, b: Seq<MsgView>, rc: (u64, u64))
    ensures
        events_at(a + b, rc) == events_at(a, rc) + events_at(b, rc),
    decreases a.len(),
{
    if a.len() == 0 {
        assert(a + b =~= b);
        assert(events_at(a, rc) + events_at(b, rc) =~= events_at(b, rc));
    } else {
        assert((a + b)[0] == a[0]);
        assert((a + b).skip(1) =~= a.skip(1) + b);
        lemma_events_at_concat(a.skip(1), b, rc);
        if addresses(a[0], rc) {
            assert(seq![a[0]] + (events_at(a.skip(1), rc) + events_at(b, rc))
                =~= (seq![a[0]] + events_at(a.skip(1), rc)) + events_at(b, rc));
        }
    }
}

proof fn lemma_events_at_two(m1: MsgView, m2: MsgView, rc: (u64, u64))
    requires
        addresses(m1, rc),
        addresses(m2, rc),
    ensures
        events_at(seq![m1, m2], rc) == seq![m1, m2],
{
    reveal_with_fuel(events_at, 4);
    let es = seq![m1, m2];
    assert(es[0] == m1);
    assert(es.skip(1) =~= seq![m2]);
    assert(seq![m2][0] == m2);
    assert(seq![m2].skip(1) =~= Seq::<MsgView>::empty());
    assert(events_at(seq![m2], rc) =~= seq![m2]);
    assert(seq![m1] + seq![m2] =~= es);
}

proof fn lemma_events_at_two_elsewhere(m1: MsgView, m2: MsgView, rc: (u64, u64))
    requires
        !addresses(m1, rc),
        !addresses(m2, rc),
    ensures
        events_at(seq![m1, m2], rc) == Seq::<MsgView>::empty(),
{
    reveal_with_fuel(events_at, 4);
    let es = seq![m1, m2];
    assert(es[0] == m1);
    assert(es.skip(1) =~= seq![m2]);
    assert(seq![m2][0] == m2);
    assert(seq![m2].skip(1) =~= Seq::<MsgView>::empty());
}

proof fn lemma_row_release_events_filter(row: Seq<CellState>, r0: u64, c: int, rc: (u64, u64))
    requires
        0 <= c <= row.len(),
        c <= u64::MAX,
    ensures
        events_at(row_release_events_to(row, r0, c), rc) == (
            if r0 == rc.0 && (rc.1 as int) < c {
                cell_release_at(row[rc.1 as int], rc.0, rc.1)
            } else {
                Seq::<MsgView>::empty()
            }
        ),
    decreases c,
{
    reveal_with_fuel(events_at, 3);
    if c <= 0 {
    } else {
        lemma_row_release_events_filter(row, r0, c - 1, rc);
        let piece = cell_release_at(row[c - 1], r0, (c - 1) as u64);
        lemma_events_at_concat(row_release_events_to(row, r0, c - 1), piece, rc);
        if crate::sweeper::tick_releases(row[c - 1]) {
            let rel = MsgView::ReleaseLock { cell: (r0, (c - 1) as u64) };
            assert(piece == seq![rel]);
            assert(seq![rel][0] == rel);
            assert(seq![rel].skip(1) =~= Seq::<MsgView>::empty());
            if r0 == rc.0 && rc.1 as int == c - 1 {
                assert(events_at(piece, rc) =~= piece);
            } else {
                assert(!addresses(rel, rc));
                assert(events_at(piece, rc) =~= Seq::<MsgView>::empty());
            }
        } else {
            assert(piece =~= Seq::<MsgView>::empty());
            assert(events_at(piece, rc) =~= Seq::<MsgView>::empty());
        }
        if r0 == rc.0 && (rc.1 as int) < c {
            assert(events_at(row_release_events_to(row, r0, c), rc)
                =~= cell_release_at(row[rc.1 as int], rc.0, rc.1));
        } else {
            assert(events_at(row_release_events_to(row, r0, c), rc)
                =~= Seq::<MsgView>::empty());
        }
    }
}

proof fn lemma_grid_release_events_filter(cells: Seq<Seq<CellState>>, r: int, rc: (u64, u64),
    width: nat)
    requires
        0 <= r <= cells.len(),
        r <= u64::MAX,
        width <= u64::MAX,
        forall|i: int| 0 <= i < cells.len() ==> (#[trigger] cells[i]).len() == width,
        (rc.1 as int) < width,
    ensures
        events_at(grid_release_events_to(cells, r), rc) == (
            if (rc.0 as int) < r {
                cell_release_at(cells[rc.0 as int][rc.1 as int], rc.0, rc.1)
            } else {
                Seq::<MsgView>::empty()
            }
        ),
    decreases r,
{
    if r <= 0 {
    } else {
        lemma_grid_release_events_filter(cells, r - 1, rc, width);
        let row_events = row_release_events_to(cells[r - 1], (r - 1) as u64,
            cells[r - 1].len() as int);
        lemma_events_at_concat(grid_release_events_to(cells, r - 1), row_events, rc);
        lemma_row_release_events_filter(cells[r - 1], (r - 1) as u64,
            cells[r - 1].len() as int, rc);
        if (rc.0 as int) < r {
            assert(events_at(grid_release_events_to(cells, r), rc)
                =~= cell_release_at(cells[rc.0 as int][rc.1 as int], rc.0, rc.1));
        } else {
            assert(events_at(grid_release_events_to(cells, r), rc)
                =~= Seq::<MsgView>::empty());
        }
    }
}

proof fn lemma_step_preserves_wf(t: TableView, inp: TableInput)
    requires
        t.wf(),
        !(match inp {
            TableInput::Client { msg, .. } => msg is InsertRows,
            TableInput::Sweep => false,
        }),
    ensures
        table_sys_step(t, inp).0.wf(),
        table_sys_step(t, inp).0.width == t.width,
        table_sys_step(t, inp).0.cells.len() == t.cells.len(),
{
    let t2 = table_sys_step(t, inp).0;
    match inp {
        TableInput::Client { client_id, msg } => {
            if is_text_mutation(msg) {
                let rc = cell_of(msg);
                if t.in_grid(rc) {
                    assert forall|i: int| 0 <= i < t2.cells.len() implies
                        (#[trigger] t2.cells[i]).len() == t2.width by {
                        if i != rc.0 as int {
                            assert(t2.cells[i] == t.cells[i]);
                        }
                    }
                }
            }
        },
        TableInput::Sweep => {
            assert forall|i: int| 0 <= i < t2.cells.len() implies
                (#[trigger] t2.cells[i]).len() == t2.width by {
                assert(t2.cells[i] == t.cells[i].map_values(
                    |c: CellState| ticked_cell(c)));
            }
        },
    }
}

/// Projection: in any whole-table run without row insertions, each
/// cell of the grid evolves exactly as its own state machine run over
/// its projected inputs, and the table broadcast restricted to that
/// cell is exactly the cell machine's broadcast. The per-cell laws —
/// replay faithfulness, the exclusive write window, the timer grace —
/// therefore hold of every cell in every such run.
pub proof fn lemma_table_run_projects_to_cell(t: TableView, inputs: Seq<TableInput>,
    rc: (u64, u64))
    requires
        t.wf(),
        t.in_grid(rc),
        t.height() <= u64::MAX,
        t.width <= u64::MAX,
        no_row_insertions(inputs),
    ensures
        table_sys_run(t, inputs).0.cell_at(rc)
            == cell_run(t.cell_at(rc), rc, cell_inputs_at(inputs, rc)).0,
        events_at(table_sys_run(t, inputs).1, rc)
            == cell_run(t.cell_at(rc), rc, cell_inputs_at(inputs, rc)).1,
    decreases inputs.len(),
{
    if inputs.len() == 0 {
    } else {
        let head = table_sys_step(t, inputs[0]);
        let rest = table_sys_run(head.0, inputs.skip(1));
        lemma_step_preserves_wf(t, inputs[0]);
        assert(no_row_insertions(inputs.skip(1))) by {
            assert forall|i: int| 0 <= i < inputs.skip(1).len() implies
                !(match #[trigger] inputs.skip(1)[i] {
                    TableInput::Client { msg, .. } => msg is InsertRows,
                    TableInput::Sweep => false,
                }) by {
                assert(inputs.skip(1)[i] == inputs[i + 1]);
            }
        }
        lemma_table_run_projects_to_cell(head.0, inputs.skip(1), rc);
        lemma_events_at_concat(head.1, rest.1, rc);
        let cin = cell_inputs_at(inputs, rc);
        let cell0 = t.cell_at(rc);
        match inputs[0] {
            TableInput::Client { client_id, msg } => {
                if is_text_mutation(msg) {
                    let target = cell_of(msg);
                    if target == rc {
                        lemma_table_edit_is_cell_step(t, client_id, rc, msg_op(msg));
                        let cstep = cell_step(cell0, rc,
                            CellInput::Edit { client_id, op: msg_op(msg) });
                        assert(head.0.cell_at(rc) == cstep.0);
                        if crate::cell::edit_applies(cell0, client_id, msg_op(msg)) {
                            let m1 = crate::table::op_msg(client_id, rc, msg_op(msg));
                            let m2 = MsgView::AcquireLock { client_id, cell: rc };
                            assert(addresses(m1, rc) && addresses(m2, rc));
                            lemma_events_at_two(m1, m2, rc);
                            assert(events_at(head.1, rc) == head.1);
                        } else {
                            assert(events_at(head.1, rc) =~= Seq::<MsgView>::empty());
                        }
                        assert(cin =~= seq![CellInput::Edit { client_id, op: msg_op(msg) }]
                            + cell_inputs_at(inputs.skip(1), rc));
                        assert(cin[0] == CellInput::Edit { client_id, op: msg_op(msg) });
                        assert(cin.skip(1) =~= cell_inputs_at(inputs.skip(1), rc));
                        assert(events_at(table_sys_run(t, inputs).1, rc)
                            =~= cell_run(cell0, rc, cin).1);
                    } else {
                        // an edit on another cell leaves this one, and
                        // its event stream, untouched
                        if t.in_grid(target) {
                            lemma_table_edit_is_cell_step(t, client_id, target, msg_op(msg));
                            assert(head.0.cell_at(rc) == cell0);
                            if crate::cell::edit_applies(t.cell_at(target), client_id,
                                msg_op(msg)) {
                                let m1 = crate::table::op_msg(client_id, target, msg_op(msg));
                                let m2 = MsgView::AcquireLock { client_id, cell: target };
                                assert(!addresses(m1, rc) && !addresses(m2, rc));
                                lemma_events_at_two_elsewhere(m1, m2, rc);
                            } else {
                                assert(events_at(head.1, rc) =~= Seq::<MsgView>::empty());
                            }
                        } else {
                            assert(head.0 == t);
                            assert(events_at(head.1, rc) =~= Seq::<MsgView>::empty());
                        }
                        assert(cin =~= cell_inputs_at(inputs.skip(1), rc));
                        assert(events_at(table_sys_run(t, inputs).1, rc)
                            =~= cell_run(cell0, rc, cin).1);
                    }
                } else {
                    // not a mutation and not a row insertion: ignored
                    assert(head.0 == t);
                    assert(head.1 =~= Seq::<MsgView>::empty());
                    assert(events_at(head.1, rc) =~= Seq::<MsgView>::empty());
                    assert(cin =~= cell_inputs_at(inputs.skip(1), rc));
                    assert(events_at(table_sys_run(t, inputs).1, rc)
                        =~= cell_run(cell0, rc, cin).1);
                }
            },
            TableInput::Sweep => {
                assert(head.0.cell_at(rc) == ticked_cell(cell0)) by {
                    assert(head.0.cells[rc.0 as int] == t.cells[rc.0 as int].map_values(
                        |c: CellState| ticked_cell(c)));
                }
                lemma_grid_release_events_filter(t.cells, t.cells.len() as int, rc, t.width);
                assert(events_at(head.1, rc) == cell_release_at(cell0, rc.0, rc.1));
                let cstep = cell_step(cell0, rc, CellInput::Tick);
                assert(cstep.0 == ticked_cell(cell0));
                assert(cstep.1 == cell_release_at(cell0, rc.0, rc.1));
                assert(cin =~= seq![CellInput::Tick] + cell_inputs_at(inputs.skip(1), rc));
                assert(cin[0] == CellInput::Tick);
                assert(cin.skip(1) =~= cell_inputs_at(inputs.skip(1), rc));
                assert(events_at(table_sys_run(t, inputs).1, rc)
                    =~= cell_run(cell0, rc, cin).1);
            },
        }
    }
}

/// Sweeper passes in a table input sequence.
pub open spec fn sweep_count(inputs: Seq<TableInput>) -> nat
    decreases inputs.len(),
{
    if inputs.len() == 0 {
        0
    } else {
        (if inputs[0] is Sweep { 1nat } else { 0nat }) + sweep_count(inputs.skip(1))
    }
}

proof fn lemma_cell_inputs_tick_count(inputs: Seq<TableInput>, rc: (u64, u64))
    ensures
        tick_count(cell_inputs_at(inputs, rc)) == sweep_count(inputs),
    decreases inputs.len(),
{
    reveal_with_fuel(tick_count, 3);
    if inputs.len() == 0 {
    } else {
        lemma_cell_inputs_tick_count(inputs.skip(1), rc);
        let rest = cell_inputs_at(inputs.skip(1), rc);
        match inputs[0] {
            TableInput::Client { client_id, msg } => {
                if is_text_mutation(msg) && cell_of(msg) == rc {
                    let e = CellInput::Edit { client_id, op: msg_op(msg) };
                    assert((seq![e] + rest)[0] == e);
                    assert((seq![e] + rest).skip(1) =~= rest);
                }
            },
            TableInput::Sweep => {
                assert((seq![CellInput::Tick] + rest)[0] == CellInput::Tick);
                assert((seq![CellInput::Tick] + rest).skip(1) =~= rest);
            },
        }
    }
}

/// Per-cell replay over a whole-table run: for any cell and any run
/// without row insertions, replaying the broadcast events addressing
/// that cell, in broadcast order from its initial text, yields
/// exactly the text the cell ends with.
pub proof fn lemma_table_broadcast_determines_cell_text(t: TableView,
    inputs: Seq<TableInput>, rc: (u64, u64))
    requires
        t.wf(),
        t.in_grid(rc),
        t.height() <= u64::MAX,
        t.width <= u64::MAX,
        no_row_insertions(inputs),
    ensures
        table_sys_run(t, inputs).0.cell_at(rc).text == replay_text(
            t.cell_at(rc).text,
            events_at(table_sys_run(t, inputs).1, rc),
        ),
{
    lemma_table_run_projects_to_cell(t, inputs, rc);
    crate::runs::lemma_broadcast_determines_text(t.cell_at(rc), rc,
        cell_inputs_at(inputs, rc));
}

/// Exclusive write window over a whole-table run: in the broadcast
/// events addressing one cell, between an `AcquireLock` and the next
/// `ReleaseLock`, every text mutation carries the acquirer's id.
pub proof fn lemma_table_exclusive_write_window(t: TableView, inputs: Seq<TableInput>,
    rc: (u64, u64), i: int, j: int)
    requires
        t.wf(),
        t.in_grid(rc),
        t.height() <= u64::MAX,
        t.width <= u64::MAX,
        no_row_insertions(inputs),
        ({
            let es = events_at(table_sys_run(t, inputs).1, rc);
            &&& 0 <= i < j < es.len()
            &&& es[i] is AcquireLock
            &&& forall|k: int| i < k < j ==> !((#[trigger] es[k]) is ReleaseLock)
            &&& is_text_mutation(es[j])
        }),
    ensures
        ({
            let es = events_at(table_sys_run(t, inputs).1, rc);
            crate::msg::client_of(es[j]) == crate::msg::client_of(es[i])
        }),
{
    lemma_table_run_projects_to_cell(t, inputs, rc);
    crate::runs::lemma_exclusive_write_window(t.cell_at(rc), rc,
        cell_inputs_at(inputs, rc), i, j);
}

/// Timer grace over a whole-table run: starting unlocked or with more
/// grace than the run has sweeper passes — in particular, right after
/// an admitted edit, whose fresh lock outlasts any run of fewer than
/// three passes — the run broadcasts no release for the cell.
pub proof fn lemma_table_release_needs_three_sweeps(t: TableView, inputs: Seq<TableInput>,
    rc: (u64, u64))
    requires
        t.wf(),
        t.in_grid(rc),
        t.height() <= u64::MAX,
        t.width <= u64::MAX,
        no_row_insertions(inputs),
        sweep_count(inputs) < 3,
        t.cell_at(rc).lock is None
            || (t.cell_at(rc).lock->Some_0.duration_secs as int) > sweep_count(inputs),
    ensures
        forall|k: int| 0 <= k < events_at(table_sys_run(t, inputs).1, rc).len() ==>
            !((#[trigger] events_at(table_sys_run(t, inputs).1, rc)[k]) is ReleaseLock),
{
    lemma_table_run_projects_to_cell(t, inputs, rc);
    lemma_cell_inputs_tick_count(inputs, rc);
    crate::runs::lemma_release_needs_three_ticks(t.cell_at(rc), rc,
        cell_inputs_at(inputs, rc));
}


} // verus!
