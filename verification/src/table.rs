//! The table: a rectangular grid of cells, the dispatch of inbound
//! client messages through the edit state machine, row insertion, and
//! the `Init` snapshot.
//!
//! `table_step` is the mathematical transition function: given a table
//! state, the server-assigned id of the requesting client, and one
//! inbound message, it yields the next table state and the exact
//! sequence of events to broadcast, in order. `handle_message` is its
//! executable counterpart.

use vstd::prelude::*;
use crate::cell::CellLockData;
use crate::cell::CellState;
use crate::cell::EditOp;
use crate::cell::OpView;
use crate::cell::TableCell;
use crate::cell::edit_applies;
use crate::cell::edited_cell;
use crate::msg::CellView;
use crate::msg::ClientMessage;
use crate::msg::MsgView;
use crate::msg::TableCellClientView;
use crate::msg::cell_of;
use crate::msg::is_text_mutation;
use crate::msg::table_payload_view;
use crate::msg::views_of;
use crate::cell::copy_bytes;

verus! {

/// The in-memory grid of one table. Rows can be inserted; the width is
/// fixed for the lifetime of the session.
pub struct Table {
    pub width: usize,
    pub cells: Vec<Vec<TableCell>>,
}

/// Model of a table: its fixed width and the grid of cell states.
pub struct TableView {
    pub width: nat,
    pub cells: Seq<Seq<CellState>>,
}

impl View for Table {
    type V = TableView;

    open spec fn view(&self) -> TableView {
        TableView {
            width: self.width as nat,
            cells: self.cells@.map_values(|row: Vec<TableCell>|
                row@.map_values(|c: TableCell| c@)),
        }
    }
}

impl TableView {
    /// Well-formedness: every row has exactly `width` cells.
    pub open spec fn wf(self) -> bool {
        forall|r: int| 0 <= r < self.cells.len() ==> (#[trigger] self.cells[r]).len() == self.width
    }

    pub open spec fn height(self) -> nat {
        self.cells.len()
    }

    /// Whether `(row, column)` addresses a cell of the grid.
    pub open spec fn in_grid(self, rc: (u64, u64)) -> bool {
        (rc.0 as int) < self.cells.len() && (rc.1 as int) < self.width
    }

    pub open spec fn cell_at(self, rc: (u64, u64)) -> CellState {
        self.cells[rc.0 as int][rc.1 as int]
    }

    /// The grid with the cell at `rc` replaced by `c`.
    pub open spec fn with_cell(self, rc: (u64, u64), c: CellState) -> TableView {
        TableView {
            width: self.width,
            cells: self.cells.update(
                rc.0 as int,
                self.cells[rc.0 as int].update(rc.1 as int, c),
            ),
        }
    }
}

/// The edit operation a mutation message carries.
pub open spec fn msg_op(m: MsgView) -> OpView
    recommends
        is_text_mutation(m),
{
    match m {
        MsgView::Insert { index, text, .. } => OpView::Insert { index, text },
        MsgView::Delete { start, end, .. } => OpView::Delete { start, end },
        MsgView::Replace { start, end, text, .. } => OpView::Replace { start, end, text },
        _ => OpView::Delete { start: 0, end: 0 },
    }
}

/// The authoritative mutation message broadcast for an applied edit:
/// the operation with the `client_id` field rewritten to the
/// server-assigned id of the requester.
pub open spec fn op_msg(client_id: u64, rc: (u64, u64), op: OpView) -> MsgView {
    match op {
        OpView::Insert { index, text } => MsgView::Insert { client_id, cell: rc, index, text },
        OpView::Delete { start, end } => MsgView::Delete { client_id, cell: rc, start, end },
        OpView::Replace { start, end, text } => MsgView::Replace {
            client_id, cell: rc, start, end, text,
        },
    }
}

/// Transition of one inbound text mutation: if the cell exists and the
/// edit is admitted and in bounds, the cell is updated and exactly two
/// events are broadcast in order — the rewritten operation, then an
/// `AcquireLock` for the requester. Otherwise the message is silently
/// dropped.
pub open spec fn edit_step(t: TableView, client_id: u64, rc: (u64, u64), op: OpView)
    -> (TableView, Seq<MsgView>)
{
    if t.in_grid(rc) && edit_applies(t.cell_at(rc), client_id, op) {
        (
            t.with_cell(rc, edited_cell(t.cell_at(rc), client_id, op)),
            seq![
                op_msg(client_id, rc, op),
                MsgView::AcquireLock { client_id, cell: rc },
            ],
        )
    } else {
        (t, Seq::empty())
    }
}

/// A cell as freshly created by a row insertion: empty text, no lock.
pub open spec fn empty_cell_state() -> CellState {
    CellState { text: Seq::empty(), lock: Option::None }
}

/// `num_rows` new rows of `width` empty, unlocked cells.
pub open spec fn empty_rows(num_rows: nat, width: nat) -> Seq<Seq<CellState>> {
    Seq::new(num_rows, |i: int| Seq::new(width, |j: int| empty_cell_state()))
}

/// Whether a concrete row consists of `width` empty, unlocked cells.
pub open spec fn is_empty_row(row: Seq<TableCell>, width: nat) -> bool {
    row.len() == width && forall|j: int| 0 <= j < row.len() ==>
        (#[trigger] row[j])@ == empty_cell_state()
}

/// The grid with `num_rows` empty rows inserted at row index `at`;
/// rows previously at and below `at` shift downward.
pub open spec fn rows_inserted(cells: Seq<Seq<CellState>>, at: int, num_rows: nat, width: nat)
    -> Seq<Seq<CellState>>
{
    cells.subrange(0, at) + empty_rows(num_rows, width) + cells.subrange(at, cells.len() as int)
}

/// Transition of one inbound `InsertRows`: if the insertion index is
/// at most the current height, the rows are inserted and the rewritten
/// message is broadcast; otherwise the message is silently dropped.
pub open spec fn insert_rows_step(t: TableView, client_id: u64, insertion_index: u64, num_rows: u64)
    -> (TableView, Seq<MsgView>)
{
    if insertion_index as nat <= t.height() {
        (
            TableView {
                width: t.width,
                cells: rows_inserted(t.cells, insertion_index as int, num_rows as nat, t.width),
            },
            seq![MsgView::InsertRows { client_id, insertion_index, num_rows }],
        )
    } else {
        (t, Seq::empty())
    }
}

/// Transition of one inbound client message. Server-authored message
/// types (`Init`, `AcquireLock`, `ReleaseLock`) coming from a client
/// are ignored, as are undecodable frames upstream of this function.
pub open spec fn table_step(t: TableView, client_id: u64, m: MsgView) -> (TableView, Seq<MsgView>) {
    match m {
        MsgView::Insert { .. } => edit_step(t, client_id, cell_of(m), msg_op(m)),
        MsgView::Delete { .. } => edit_step(t, client_id, cell_of(m), msg_op(m)),
        MsgView::Replace { .. } => edit_step(t, client_id, cell_of(m), msg_op(m)),
        MsgView::InsertRows { insertion_index, num_rows, .. } =>
            insert_rows_step(t, client_id, insertion_index, num_rows),
        _ => (t, Seq::empty()),
    }
}

/// The owner a snapshot reports for a lock state: present iff the lock
/// is present.
pub open spec fn lock_owner(lock: Option<CellLockData>) -> Option<u64> {
    match lock {
        Option::None => Option::None,
        Option::Some(l) => Option::Some(l.owner_id),
    }
}

/// One cell's contribution to the `Init` snapshot.
pub open spec fn snapshot_cell(c: CellState) -> CellView {
    CellView { text: c.text, owner_id: lock_owner(c.lock) }
}

/// The `Init` snapshot of a table: row-major, each cell's current text
/// and the owner of its lock when one is held.
pub open spec fn snapshot_view(t: TableView) -> Seq<Seq<CellView>> {
    t.cells.map_values(|row: Seq<CellState>| row.map_values(|c: CellState| snapshot_cell(c)))
}

impl Table {
    /// Dispatch one inbound client message: mutate the grid as
    /// `table_step` prescribes and return the events to broadcast, in
    /// order.
    pub fn handle_message(&mut self, client_id: u64, msg: ClientMessage)
        -> (events: Vec<ClientMessage>)
        requires
            old(self)@.wf(),
        ensures
            final(self)@.wf(),
            final(self)@ == table_step(old(self)@, client_id, msg@).0,
            views_of(events@) == table_step(old(self)@, client_id, msg@).1,
    {
        let mut events: Vec<ClientMessage> = Vec::new();
        match msg {
            ClientMessage::Insert { client_id: _, cell, index, text } => {
                let op = EditOp::Insert { index, text };
                self.edit_cell(client_id, cell, op, &mut events);
            },
            ClientMessage::Delete { client_id: _, cell, start, end } => {
                let op = EditOp::Delete { start, end };
                self.edit_cell(client_id, cell, op, &mut events);
            },
            ClientMessage::Replace { client_id: _, cell, start, end, text } => {
                let op = EditOp::Replace { start, end, text };
                self.edit_cell(client_id, cell, op, &mut events);
            },
            ClientMessage::InsertRows { client_id: _, insertion_index, num_rows } => {
                self.insert_rows(client_id, insertion_index, num_rows, &mut events);
            },
            _ => {
                proof {
                    assert(views_of(events@) =~= Seq::<MsgView>::empty());
                }
            },
        }
        events
    }

    /// Attempt one text mutation on the cell at `rc`, appending the
    /// broadcast events of `edit_step` to `events`.
    fn edit_cell(&mut self, client_id: u64, rc: (u64, u64), op: EditOp,
        events: &mut Vec<ClientMessage>)
        requires
            old(self)@.wf(),
        ensures
            final(self)@.wf(),
            final(self)@ == edit_step(old(self)@, client_id, rc, op@).0,
            views_of(final(events)@) == views_of(old(events)@)
                + edit_step(old(self)@, client_id, rc, op@).1,
    {
        let (r, c) = rc;
        if !(r < self.cells.len() as u64 && c < self.width as u64) {
            proof {
                assert(!self@.in_grid(rc));
                assert(views_of(events@) =~= views_of(events@) + Seq::<MsgView>::empty());
            }
            return;
        }
        let r_us: usize = r as usize;
        let c_us: usize = c as usize;
        proof {
            assert(self@.cells[r as int].len() == self@.width);
            assert(self@.cells[r as int] == self.cells@[r as int]@.map_values(
                |cc: TableCell| cc@));
            assert(self.cells@[r as int]@.len() == self@.width);
        }
        let row_ref = &mut self.cells[r_us];
        let cell_ref = &mut row_ref[c_us];
        let applied = cell_ref.try_edit(client_id, &op);
        proof {
            assert(old(self)@.cells[r as int] == old(self).cells@[r as int]@.map_values(
                |cc: TableCell| cc@));
            assert(old(self)@.cell_at(rc) == old(self).cells@[r as int]@[c as int]@);
            if applied {
                assert(self.cells@[r as int]@[c as int]@ == edited_cell(old(self)@.cell_at(rc),
                    client_id, op@));
                assert(self@.cells =~~= edit_step(old(self)@, client_id, rc, op@).0.cells);
            } else {
                assert(self@.cells =~~= old(self)@.cells);
            }
        }
        if applied {
            match op {
                EditOp::Insert { index, text } => {
                    events.push(ClientMessage::Insert { client_id, cell: rc, index, text });
                },
                EditOp::Delete { start, end } => {
                    events.push(ClientMessage::Delete { client_id, cell: rc, start, end });
                },
                EditOp::Replace { start, end, text } => {
                    events.push(ClientMessage::Replace { client_id, cell: rc, start, end, text });
                },
            }
            events.push(ClientMessage::AcquireLock { client_id, cell: rc });
            proof {
                assert(views_of(events@) =~= views_of(old(events)@)
                    + edit_step(old(self)@, client_id, rc, op@).1);
            }
        } else {
            proof {
                assert(views_of(events@) =~= views_of(old(events)@) + Seq::<MsgView>::empty());
            }
        }
    }

    /// Insert `num_rows` empty rows at `insertion_index`, appending the
    /// broadcast event of `insert_rows_step` to `events`. An index past
    /// the current height drops the message.
    fn insert_rows(&mut self, client_id: u64, insertion_index: u64, num_rows: u64,
        events: &mut Vec<ClientMessage>)
        requires
            old(self)@.wf(),
        ensures
            final(self)@.wf(),
            final(self)@ == insert_rows_step(old(self)@, client_id, insertion_index, num_rows).0,
            views_of(final(events)@) == views_of(old(events)@)
                + insert_rows_step(old(self)@, client_id, insertion_index, num_rows).1,
    {
        if insertion_index > self.cells.len() as u64 {
            proof {
                assert(views_of(events@) =~= views_of(events@) + Seq::<MsgView>::empty());
            }
            return;
        }
        let at: usize = insertion_index as usize;
        let mut added: u64 = 0;
        while added < num_rows
            invariant
                added <= num_rows,
                at as int <= old(self).cells@.len(),
                self.width == old(self).width,
                self.cells@.len() == old(self).cells@.len() + added,
                forall|i: int| 0 <= i < at as int ==>
                    #[trigger] self.cells@[i] == old(self).cells@[i],
                forall|i: int| at as int <= i < at as int + added ==>
                    is_empty_row((#[trigger] self.cells@[i])@, old(self)@.width),
                forall|i: int| at as int + added <= i < self.cells@.len() ==>
                    #[trigger] self.cells@[i] == old(self).cells@[i - added],
            decreases num_rows - added,
        {
            let mut new_row: Vec<TableCell> = Vec::new();
            let mut jc: usize = 0;
            while jc < self.width
                invariant
                    jc <= self.width,
                    new_row@.len() == jc,
                    forall|j: int| 0 <= j < jc as int ==>
                        (#[trigger] new_row@[j])@ == empty_cell_state(),
                decreases self.width - jc,
            {
                new_row.push(TableCell { text: Vec::new(), lock: Option::None });
                jc = jc + 1;
            }
            let ghost prev = self.cells@;
            self.cells.insert(at, new_row);
            added = added + 1;
            proof {
                prev.insert_ensures(at as int, new_row);
            }
        }
        events.push(ClientMessage::InsertRows { client_id, insertion_index, num_rows });
        proof {
            assert(views_of(events@) =~= views_of(old(events)@)
                + insert_rows_step(old(self)@, client_id, insertion_index, num_rows).1);
            let target = rows_inserted(old(self)@.cells, at as int, num_rows as nat,
                old(self)@.width);
            assert(old(self)@.cells.len() == old(self).cells@.len());
            assert forall|i: int| 0 <= i < self@.cells.len() implies
                #[trigger] self@.cells[i] =~= target[i] by {
                assert(self@.cells[i] == self.cells@[i]@.map_values(|cc: TableCell| cc@));
                if i < at as int {
                    assert(old(self)@.cells[i] == old(self).cells@[i]@.map_values(
                        |cc: TableCell| cc@));
                } else if i < at as int + num_rows as int {
                    assert(is_empty_row(self.cells@[i]@, old(self)@.width));
                    assert(target[i] == empty_rows(num_rows as nat, old(self)@.width)[
                        i - at as int]);
                } else {
                    assert(old(self)@.cells[i - num_rows as int] == old(self).cells@[
                        i - num_rows as int]@.map_values(|cc: TableCell| cc@));
                }
            }
            assert(self@.cells =~~= target);
        }
    }

    /// The `Init` snapshot: row-major, each cell's current text, and
    /// its lock's owner exactly when a lock is held.
    pub fn snapshot(&self) -> (snap: Vec<Vec<TableCellClientView>>)
        ensures
            table_payload_view(snap@) == snapshot_view(self@),
    {
        let mut snap: Vec<Vec<TableCellClientView>> = Vec::new();
        let mut r: usize = 0;
        while r < self.cells.len()
            invariant
                r <= self.cells@.len(),
                snap@.len() == r,
                forall|i: int| 0 <= i < r as int ==> {
                    let srow = (#[trigger] snap@[i])@;
                    &&& srow.len() == self.cells@[i]@.len()
                    &&& forall|j: int| 0 <= j < srow.len() ==>
                        (#[trigger] srow[j])@ == snapshot_cell(self.cells@[i]@[j]@)
                },
            decreases self.cells@.len() - r,
        {
            let row = &self.cells[r];
            let mut snap_row: Vec<TableCellClientView> = Vec::new();
            let mut c: usize = 0;
            while c < row.len()
                invariant
                    r < self.cells@.len(),
                    c <= row@.len(),
                    row == self.cells@[r as int],
                    snap_row@.len() == c,
                    forall|j: int| 0 <= j < c as int ==>
                        (#[trigger] snap_row@[j])@ == snapshot_cell(row@[j]@),
                decreases row@.len() - c,
            {
                let cell = &row[c];
                let owner_id = match &cell.lock {
                    Option::None => Option::None,
                    Option::Some(l) => Option::Some(l.owner_id),
                };
                snap_row.push(TableCellClientView { text: copy_bytes(&cell.text), owner_id });
                c = c + 1;
            }
            snap.push(snap_row);
            r = r + 1;
        }
        proof {
            assert forall|i: int| 0 <= i < snapshot_view(self@).len() implies
                #[trigger] table_payload_view(snap@)[i] =~= snapshot_view(self@)[i] by {
                assert(self@.cells[i] == self.cells@[i]@.map_values(|cc: TableCell| cc@));
                assert(table_payload_view(snap@)[i] == snap@[i]@.map_values(
                    |cv: TableCellClientView| cv@));
            }
            assert(table_payload_view(snap@) =~~= snapshot_view(self@));
        }
        snap
    }

    /// The `Init` message sent to a freshly attached client: its
    /// server-assigned id and the snapshot of the grid.
    pub fn make_init(&self, client_id: u64) -> (m: ClientMessage)
        ensures
            m@ == (MsgView::Init { client_id, table: snapshot_view(self@) }),
    {
        let table = self.snapshot();
        ClientMessage::Init { client_id, table }
    }
}

/// Table dispatch acts on the addressed cell exactly as the single
/// cell's state machine does: the events are the same, the addressed
/// cell steps as the cell machine steps it, and no other cell moves.
pub proof fn lemma_table_edit_is_cell_step(t: TableView, client_id: u64, rc: (u64, u64),
    op: OpView)
    requires
        t.wf(),
        t.in_grid(rc),
    ensures
        ({
            let ts = edit_step(t, client_id, rc, op);
            let cs = crate::runs::cell_step(t.cell_at(rc), rc,
                crate::runs::CellInput::Edit { client_id, op });
            &&& ts.1 == cs.1
            &&& ts.0.cell_at(rc) == cs.0
            &&& ts.0.width == t.width
            &&& ts.0.cells.len() == t.cells.len()
            &&& forall|r: int, c: int| 0 <= r < t.cells.len() && 0 <= c < t.cells[r].len()
                && !(r == rc.0 as int && c == rc.1 as int) ==>
                #[trigger] ts.0.cells[r][c] == t.cells[r][c]
        }),
{
    let ts = edit_step(t, client_id, rc, op);
    assert forall|r: int, c: int| 0 <= r < t.cells.len() && 0 <= c < t.cells[r].len()
        && !(r == rc.0 as int && c == rc.1 as int) implies
        #[trigger] ts.0.cells[r][c] == t.cells[r][c] by {
        if edit_applies(t.cell_at(rc), client_id, op) {
            if r != rc.0 as int {
                assert(ts.0.cells[r] == t.cells[r]);
            } else {
                assert(ts.0.cells[r] == t.cells[r].update(rc.1 as int,
                    edited_cell(t.cell_at(rc), client_id, op)));
            }
        }
    }
}

/// The snapshot a client receives is faithful: for every cell of the
/// grid, the snapshot's `owner_id` is present exactly when the cell
/// holds a lock, it names the lock's owner, and the snapshot text is
/// the cell's current text.
pub proof fn lemma_snapshot_faithful(t: TableView)
    ensures
        snapshot_view(t).len() == t.cells.len(),
        forall|r: int| 0 <= r < t.cells.len() ==>
            (#[trigger] snapshot_view(t)[r]).len() == t.cells[r].len(),
        forall|r: int, c: int| 0 <= r < t.cells.len() && 0 <= c < t.cells[r].len() ==> {
            let sc = #[trigger] snapshot_view(t)[r][c];
            &&& (sc.owner_id is Some <==> t.cells[r][c].lock is Some)
            &&& (t.cells[r][c].lock is Some ==>
                sc.owner_id == Option::Some(t.cells[r][c].lock->Some_0.owner_id))
            &&& sc.text == t.cells[r][c].text
        },
{
}

} // verus!
