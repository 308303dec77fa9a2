//! Edit state machine, sweeper and grid tests: the boundary behaviors
//! of the apply rules and the end-to-end editing scenarios.

use collab_grid::cell::{EditOp, TableCell, LOCK_DURATION_SECS};
use collab_grid::msg::ClientMessage;
use collab_grid::storage::{build_table, insert_rows_storage_plan, StorageOp};
use collab_grid::table::Table;

fn one_cell_table(text: &[u8]) -> Table {
    build_table(1, 1, &vec![(0, 0, text.to_vec())])
}

#[test]
fn insert_at_end_appends() {
    let mut cell = TableCell::new(b"abc".to_vec());
    let applied = cell.try_edit(1, &EditOp::Insert { index: 3, text: b"de".to_vec() });
    assert!(applied);
    assert_eq!(cell.text, b"abcde".to_vec());
}

#[test]
fn insert_past_end_also_appends() {
    let mut cell = TableCell::new(b"abc".to_vec());
    let applied = cell.try_edit(1, &EditOp::Insert { index: 999, text: b"de".to_vec() });
    assert!(applied);
    assert_eq!(cell.text, b"abcde".to_vec());
}

#[test]
fn insert_mid_text() {
    let mut cell = TableCell::new(b"Hello!".to_vec());
    let applied = cell.try_edit(1, &EditOp::Insert { index: 5, text: b", World".to_vec() });
    assert!(applied);
    assert_eq!(cell.text, b"Hello, World!".to_vec());
}

#[test]
fn delete_range() {
    let mut cell = TableCell::new(b"abcdef".to_vec());
    let applied = cell.try_edit(1, &EditOp::Delete { start: 1, end: 4 });
    assert!(applied);
    assert_eq!(cell.text, b"aef".to_vec());
}

#[test]
fn replace_range() {
    let mut cell = TableCell::new(b"abcdef".to_vec());
    let applied = cell.try_edit(1, &EditOp::Replace { start: 2, end: 4, text: b"XY".to_vec() });
    assert!(applied);
    assert_eq!(cell.text, b"abXYef".to_vec());
}

#[test]
fn out_of_bounds_range_is_dropped() {
    let mut cell = TableCell::new(b"abc".to_vec());
    assert!(!cell.try_edit(1, &EditOp::Delete { start: 2, end: 1 }));
    assert!(!cell.try_edit(1, &EditOp::Delete { start: 0, end: 4 }));
    assert!(!cell.try_edit(1, &EditOp::Replace { start: 1, end: 9, text: vec![] }));
    assert_eq!(cell.text, b"abc".to_vec());
    assert!(cell.lock.is_none());
}

#[test]
fn empty_range_delete_is_noop_but_refreshes() {
    // An empty-range delete changes no text, yet still takes the lock
    // and is broadcast like any admitted edit.
    let mut t = one_cell_table(b"abc");
    let events = t.handle_message(8, ClientMessage::Delete {
        client_id: 0,
        cell: (0, 0),
        start: 2,
        end: 2,
    });
    assert_eq!(t.cells[0][0].text, b"abc".to_vec());
    let lock = t.cells[0][0].lock.expect("lock must be refreshed");
    assert_eq!(lock.owner_id, 8);
    assert_eq!(lock.duration_secs, LOCK_DURATION_SECS);
    assert_eq!(events, vec![
        ClientMessage::Delete { client_id: 8, cell: (0, 0), start: 2, end: 2 },
        ClientMessage::AcquireLock { client_id: 8, cell: (0, 0) },
    ]);
}

#[test]
fn non_owner_edit_is_silently_dropped() {
    let mut t = one_cell_table(b"abc");
    let _ = t.handle_message(1, ClientMessage::Insert {
        client_id: 0,
        cell: (0, 0),
        index: 0,
        text: b"x".to_vec(),
    });
    // client 2 attempts while client 1 holds the lock
    let events = t.handle_message(2, ClientMessage::Replace {
        client_id: 0,
        cell: (0, 0),
        start: 0,
        end: 1,
        text: b"y".to_vec(),
    });
    assert!(events.is_empty());
    assert_eq!(t.cells[0][0].text, b"xabc".to_vec());
    assert_eq!(t.cells[0][0].lock.unwrap().owner_id, 1);
}

#[test]
fn client_id_is_rewritten_on_broadcast() {
    let mut t = one_cell_table(b"");
    let events = t.handle_message(42, ClientMessage::Insert {
        client_id: 7777, // what the client claimed; the server overrides it
        cell: (0, 0),
        index: 0,
        text: b"hi".to_vec(),
    });
    assert_eq!(events, vec![
        ClientMessage::Insert { client_id: 42, cell: (0, 0), index: 0, text: b"hi".to_vec() },
        ClientMessage::AcquireLock { client_id: 42, cell: (0, 0) },
    ]);
}

#[test]
fn out_of_grid_cell_is_dropped() {
    let mut t = one_cell_table(b"abc");
    let events = t.handle_message(1, ClientMessage::Insert {
        client_id: 0,
        cell: (5, 0),
        index: 0,
        text: b"x".to_vec(),
    });
    assert!(events.is_empty());
    assert_eq!(t.cells[0][0].text, b"abc".to_vec());
}

#[test]
fn server_authored_types_from_client_are_ignored() {
    let mut t = one_cell_table(b"abc");
    let e1 = t.handle_message(1, ClientMessage::AcquireLock { client_id: 1, cell: (0, 0) });
    let e2 = t.handle_message(1, ClientMessage::ReleaseLock { cell: (0, 0) });
    let e3 = t.handle_message(1, ClientMessage::Init { client_id: 1, table: vec![] });
    assert!(e1.is_empty() && e2.is_empty() && e3.is_empty());
    assert_eq!(t.cells[0][0].text, b"abc".to_vec());
    assert!(t.cells[0][0].lock.is_none());
}

#[test]
fn sweeper_releases_on_third_pass() {
    let mut t = one_cell_table(b"abc");
    let _ = t.handle_message(1, ClientMessage::Insert {
        client_id: 0,
        cell: (0, 0),
        index: 3,
        text: b"!".to_vec(),
    });
    // pass one: 3 -> 2
    let (wb, ev) = t.sweep();
    assert!(wb.is_empty() && ev.is_empty());
    assert_eq!(t.cells[0][0].lock.unwrap().duration_secs, 2);
    // pass two: 2 -> 1
    let (wb, ev) = t.sweep();
    assert!(wb.is_empty() && ev.is_empty());
    assert_eq!(t.cells[0][0].lock.unwrap().duration_secs, 1);
    // pass three: released; the cell's current text goes to storage
    let (wb, ev) = t.sweep();
    assert_eq!(wb, vec![(0, 0, b"abc!".to_vec())]);
    assert_eq!(ev, vec![ClientMessage::ReleaseLock { cell: (0, 0) }]);
    assert!(t.cells[0][0].lock.is_none());
    // text survives the release
    assert_eq!(t.cells[0][0].text, b"abc!".to_vec());
}

#[test]
fn refresh_restarts_grace_window() {
    let mut t = one_cell_table(b"");
    let ins = |txt: &[u8]| ClientMessage::Insert {
        client_id: 0,
        cell: (0, 0),
        index: 999,
        text: txt.to_vec(),
    };
    let _ = t.handle_message(1, ins(b"a"));
    let _ = t.sweep();
    let _ = t.sweep();
    // refresh just before expiry
    let _ = t.handle_message(1, ins(b"b"));
    assert_eq!(t.cells[0][0].lock.unwrap().duration_secs, LOCK_DURATION_SECS);
    let (_, ev) = t.sweep();
    assert!(ev.is_empty());
    let (_, ev) = t.sweep();
    assert!(ev.is_empty());
    let (_, ev) = t.sweep();
    assert_eq!(ev, vec![ClientMessage::ReleaseLock { cell: (0, 0) }]);
    assert_eq!(t.cells[0][0].text, b"ab".to_vec());
}

#[test]
fn insert_rows_reshapes_grid() {
    // 2 x 3 table; insert two empty rows at index 1
    let rows = vec![
        (0, 0, b"a".to_vec()),
        (0, 1, b"b".to_vec()),
        (0, 2, b"c".to_vec()),
        (1, 0, b"d".to_vec()),
        (1, 1, b"e".to_vec()),
        (1, 2, b"f".to_vec()),
    ];
    let mut t = build_table(3, 2, &rows);
    let events = t.handle_message(5, ClientMessage::InsertRows {
        client_id: 0,
        insertion_index: 1,
        num_rows: 2,
    });
    assert_eq!(t.cells.len(), 4);
    for row in &t.cells {
        assert_eq!(row.len(), 3);
    }
    assert_eq!(t.cells[0][0].text, b"a".to_vec());
    assert_eq!(t.cells[0][2].text, b"c".to_vec());
    for r in 1..3 {
        for c in 0..3 {
            assert!(t.cells[r][c].text.is_empty());
            assert!(t.cells[r][c].lock.is_none());
        }
    }
    assert_eq!(t.cells[3][0].text, b"d".to_vec());
    assert_eq!(t.cells[3][2].text, b"f".to_vec());
    assert_eq!(events, vec![ClientMessage::InsertRows {
        client_id: 5,
        insertion_index: 1,
        num_rows: 2,
    }]);
}

#[test]
fn insert_rows_past_height_is_dropped() {
    let mut t = one_cell_table(b"x");
    let events = t.handle_message(1, ClientMessage::InsertRows {
        client_id: 0,
        insertion_index: 2,
        num_rows: 1,
    });
    assert!(events.is_empty());
    assert_eq!(t.cells.len(), 1);
}

#[test]
fn insert_rows_storage_plan_exact() {
    let plan = insert_rows_storage_plan(1, 2, 3);
    assert_eq!(plan, vec![
        StorageOp::UpdateHeight { delta: 2 },
        StorageOp::ShiftRowNumbers { from_row: 1, by: 2 },
        StorageOp::InsertCell { row: 1, col: 0 },
        StorageOp::InsertCell { row: 1, col: 1 },
        StorageOp::InsertCell { row: 1, col: 2 },
        StorageOp::InsertCell { row: 2, col: 0 },
        StorageOp::InsertCell { row: 2, col: 1 },
        StorageOp::InsertCell { row: 2, col: 2 },
    ]);
}

#[test]
fn build_table_fills_and_filters() {
    let rows = vec![
        (0, 0, b"first".to_vec()),
        (7, 0, b"out of range row".to_vec()),
        (0, 7, b"out of range col".to_vec()),
        (-1, 0, b"negative".to_vec()),
        (1, 1, b"old".to_vec()),
        (1, 1, b"new".to_vec()), // later row wins
    ];
    let t = build_table(2, 2, &rows);
    assert_eq!(t.width, 2);
    assert_eq!(t.cells.len(), 2);
    assert_eq!(t.cells[0][0].text, b"first".to_vec());
    assert_eq!(t.cells[0][1].text, b"".to_vec());
    assert_eq!(t.cells[1][0].text, b"".to_vec());
    assert_eq!(t.cells[1][1].text, b"new".to_vec());
    for row in &t.cells {
        for cell in row {
            assert!(cell.lock.is_none());
        }
    }
}

#[test]
fn replay_of_broadcast_matches_cell_text() {
    // The per-cell broadcast, replayed in order, reproduces the text.
    let mut t = one_cell_table(b"");
    let mut all_events: Vec<ClientMessage> = vec![];
    let msgs = vec![
        ClientMessage::Insert { client_id: 0, cell: (0, 0), index: 0, text: b"hello".to_vec() },
        ClientMessage::Replace { client_id: 0, cell: (0, 0), start: 0, end: 1, text: b"H".to_vec() },
        ClientMessage::Delete { client_id: 0, cell: (0, 0), start: 4, end: 5 },
        ClientMessage::Insert { client_id: 0, cell: (0, 0), index: 99, text: b"p!".to_vec() },
    ];
    for m in msgs {
        all_events.extend(t.handle_message(3, m));
    }
    // replay only the mutation events, in broadcast order
    let mut replayed = TableCell::new(Vec::new());
    for ev in &all_events {
        match ev {
            ClientMessage::Insert { client_id, index, text, .. } => {
                assert!(replayed.try_edit(*client_id, &EditOp::Insert {
                    index: *index,
                    text: text.clone(),
                }));
            }
            ClientMessage::Delete { client_id, start, end, .. } => {
                assert!(replayed.try_edit(*client_id, &EditOp::Delete {
                    start: *start,
                    end: *end,
                }));
            }
            ClientMessage::Replace { client_id, start, end, text, .. } => {
                assert!(replayed.try_edit(*client_id, &EditOp::Replace {
                    start: *start,
                    end: *end,
                    text: text.clone(),
                }));
            }
            _ => {}
        }
    }
    assert_eq!(replayed.text, t.cells[0][0].text);
    assert_eq!(t.cells[0][0].text, b"Hellp!".to_vec());
}

#[test]
fn mutations_between_acquire_and_release_share_owner() {
    let mut t = one_cell_table(b"");
    let mut log: Vec<ClientMessage> = vec![];
    let ins = |cid_claim: u64| ClientMessage::Insert {
        client_id: cid_claim,
        cell: (0, 0),
        index: 99,
        text: b"x".to_vec(),
    };
    log.extend(t.handle_message(1, ins(0)));
    log.extend(t.handle_message(2, ins(0))); // dropped: 1 owns the lock
    log.extend(t.handle_message(1, ins(0)));
    let (_, ev) = t.sweep();
    log.extend(ev);
    let (_, ev) = t.sweep();
    log.extend(ev);
    let (_, ev) = t.sweep();
    log.extend(ev);
    log.extend(t.handle_message(2, ins(0))); // lock released; 2 may write
    // between the first AcquireLock and the ReleaseLock, every
    // mutation carries owner 1; after the release, owner 2
    let release_at = log
        .iter()
        .position(|m| matches!(m, ClientMessage::ReleaseLock { .. }))
        .expect("a release must be broadcast");
    for m in &log[..release_at] {
        if let ClientMessage::Insert { client_id, .. } = m {
            assert_eq!(*client_id, 1);
        }
    }
    for m in &log[release_at + 1..] {
        if let ClientMessage::Insert { client_id, .. } = m {
            assert_eq!(*client_id, 2);
        }
    }
}
