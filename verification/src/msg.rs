//! Wire messages.
//!
//! Every frame exchanged with a client is one `ClientMessage`. The
//! mathematical model of a message is `MsgView`, with byte strings as
//! `Seq<u8>`; contracts throughout the library speak of views.

use vstd::prelude::*;

verus! {

/// One cell as it appears in the `Init` snapshot: its text and, when
/// the cell is locked, the lock's owner.
#[derive(Debug, PartialEq, Eq)]
pub struct TableCellClientView {
    pub text: Vec<u8>,
    pub owner_id: Option<u64>,
}

/// A message of the wire protocol. Cells are addressed as
/// `(row, column)`; all text offsets are byte offsets.
///
/// `Init`, `AcquireLock` and `ReleaseLock` are server-authored only:
/// the connection handler ignores them when a client sends them.
#[derive(Debug, PartialEq, Eq)]
pub enum ClientMessage {
    Init { client_id: u64, table: Vec<Vec<TableCellClientView>> },
    Insert { client_id: u64, cell: (u64, u64), index: u64, text: Vec<u8> },
    Delete { client_id: u64, cell: (u64, u64), start: u64, end: u64 },
    Replace { client_id: u64, cell: (u64, u64), start: u64, end: u64, text: Vec<u8> },
    InsertRows { client_id: u64, insertion_index: u64, num_rows: u64 },
    AcquireLock { client_id: u64, cell: (u64, u64) },
    ReleaseLock { cell: (u64, u64) },
}

/// Model of one snapshot cell.
pub struct CellView {
    pub text: Seq<u8>,
    pub owner_id: Option<u64>,
}

/// Model of a message.
pub enum MsgView {
    Init { client_id: u64, table: Seq<Seq<CellView>> },
    Insert { client_id: u64, cell: (u64, u64), index: u64, text: Seq<u8> },
    Delete { client_id: u64, cell: (u64, u64), start: u64, end: u64 },
    Replace { client_id: u64, cell: (u64, u64), start: u64, end: u64, text: Seq<u8> },
    InsertRows { client_id: u64, insertion_index: u64, num_rows: u64 },
    AcquireLock { client_id: u64, cell: (u64, u64) },
    ReleaseLock { cell: (u64, u64) },
}

impl View for TableCellClientView {
    type V = CellView;

    open spec fn view(&self) -> CellView {
        CellView { text: self.text@, owner_id: self.owner_id }
    }
}

/// Model of an `Init` payload: the snapshot rows as sequences of cell
/// views.
pub open spec fn table_payload_view(table: Seq<Vec<TableCellClientView>>) -> Seq<Seq<CellView>> {
    table.map_values(|row: Vec<TableCellClientView>| row@.map_values(|c: TableCellClientView| c@))
}

impl View for ClientMessage {
    type V = MsgView;

    open spec fn view(&self) -> MsgView {
        match self {
            ClientMessage::Init { client_id, table } => MsgView::Init {
                client_id: *client_id,
                table: table_payload_view(table@),
            },
            ClientMessage::Insert { client_id, cell, index, text } => MsgView::Insert {
                client_id: *client_id, cell: *cell, index: *index, text: text@,
            },
            ClientMessage::Delete { client_id, cell, start, end } => MsgView::Delete {
                client_id: *client_id, cell: *cell, start: *start, end: *end,
            },
            ClientMessage::Replace { client_id, cell, start, end, text } => MsgView::Replace {
                client_id: *client_id, cell: *cell, start: *start, end: *end, text: text@,
            },
            ClientMessage::InsertRows { client_id, insertion_index, num_rows } =>
                MsgView::InsertRows {
                    client_id: *client_id,
                    insertion_index: *insertion_index,
                    num_rows: *num_rows,
                },
            ClientMessage::AcquireLock { client_id, cell } => MsgView::AcquireLock {
                client_id: *client_id, cell: *cell,
            },
            ClientMessage::ReleaseLock { cell } => MsgView::ReleaseLock { cell: *cell },
        }
    }
}

/// The views of a sequence of messages, in order.
pub open spec fn views_of(s: Seq<ClientMessage>) -> Seq<MsgView> {
    s.map_values(|m: ClientMessage| m@)
}

/// Whether a message is one of the three per-cell text mutations.
pub open spec fn is_text_mutation(m: MsgView) -> bool {
    m is Insert || m is Delete || m is Replace
}

/// A copy of a snapshot cell.
pub fn copy_cell_view(c: &TableCellClientView) -> (r: TableCellClientView)
    ensures
        r@ == c@,
{
    let text = crate::cell::copy_bytes(&c.text);
    let owner_id = match &c.owner_id {
        Option::None => Option::None,
        Option::Some(o) => Option::Some(*o),
    };
    TableCellClientView { text, owner_id }
}

/// A copy of a message, for handing one hub event to one subscriber
/// while the hub's log keeps the original.
pub fn copy_message(m: &ClientMessage) -> (r: ClientMessage)
    ensures
        r@ == m@,
{
    match m {
        ClientMessage::Init { client_id, table } => {
            let mut rows: Vec<Vec<TableCellClientView>> = Vec::new();
            let mut i: usize = 0;
            while i < table.len()
                invariant
                    i <= table@.len(),
                    rows@.len() == i,
                    forall|r: int| 0 <= r < i as int ==> {
                        let rrow = (#[trigger] rows@[r])@;
                        &&& rrow.len() == table@[r]@.len()
                        &&& forall|c: int| 0 <= c < rrow.len() ==>
                            (#[trigger] rrow[c])@ == table@[r]@[c]@
                    },
                decreases table@.len() - i,
            {
                let row = &table[i];
                let mut out_row: Vec<TableCellClientView> = Vec::new();
                let mut j: usize = 0;
                while j < row.len()
                    invariant
                        j <= row@.len(),
                        out_row@.len() == j,
                        forall|c: int| 0 <= c < j as int ==>
                            (#[trigger] out_row@[c])@ == row@[c]@,
                    decreases row@.len() - j,
                {
                    out_row.push(copy_cell_view(&row[j]));
                    j = j + 1;
                }
                rows.push(out_row);
                i = i + 1;
            }
            proof {
                assert forall|r: int| 0 <= r < table@.len() implies
                    #[trigger] table_payload_view(rows@)[r] =~= table_payload_view(table@)[r] by {
                }
                assert(table_payload_view(rows@) =~~= table_payload_view(table@));
            }
            ClientMessage::Init { client_id: *client_id, table: rows }
        },
        ClientMessage::Insert { client_id, cell, index, text } => ClientMessage::Insert {
            client_id: *client_id,
            cell: *cell,
            index: *index,
            text: crate::cell::copy_bytes(text),
        },
        ClientMessage::Delete { client_id, cell, start, end } => ClientMessage::Delete {
            client_id: *client_id, cell: *cell, start: *start, end: *end,
        },
        ClientMessage::Replace { client_id, cell, start, end, text } => ClientMessage::Replace {
            client_id: *client_id,
            cell: *cell,
            start: *start,
            end: *end,
            text: crate::cell::copy_bytes(text),
        },
        ClientMessage::InsertRows { client_id, insertion_index, num_rows } =>
            ClientMessage::InsertRows {
                client_id: *client_id,
                insertion_index: *insertion_index,
                num_rows: *num_rows,
            },
        ClientMessage::AcquireLock { client_id, cell } => ClientMessage::AcquireLock {
            client_id: *client_id, cell: *cell,
        },
        ClientMessage::ReleaseLock { cell } => ClientMessage::ReleaseLock { cell: *cell },
    }
}

/// The cell a per-cell message addresses.
pub open spec fn cell_of(m: MsgView) -> (u64, u64)
    recommends m is Insert || m is Delete || m is Replace
        || m is AcquireLock || m is ReleaseLock,
{
    match m {
        MsgView::Insert { cell, .. } => cell,
        MsgView::Delete { cell, .. } => cell,
        MsgView::Replace { cell, .. } => cell,
        MsgView::AcquireLock { cell, .. } => cell,
        MsgView::ReleaseLock { cell } => cell,
        _ => (0, 0),
    }
}

/// The client a message carries.
pub open spec fn client_of(m: MsgView) -> u64
    recommends !(m is ReleaseLock),
{
    match m {
        MsgView::Init { client_id, .. } => client_id,
        MsgView::Insert { client_id, .. } => client_id,
        MsgView::Delete { client_id, .. } => client_id,
        MsgView::Replace { client_id, .. } => client_id,
        MsgView::InsertRows { client_id, .. } => client_id,
        MsgView::AcquireLock { client_id, .. } => client_id,
        MsgView::ReleaseLock { .. } => 0,
    }
}

} // verus!
