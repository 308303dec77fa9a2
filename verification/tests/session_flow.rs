//! Session-level tests: the connection lifecycle, the hub's ordering
//! and lag behavior, the registry's single materialization, and the
//! end-to-end editing scenarios over whole sessions.

use collab_grid::codec::encode_msg;
use collab_grid::hub::{Hub, HubSubscriber, RecvOutcome};
use collab_grid::msg::ClientMessage;
use collab_grid::registry::{ClientIdAllocator, NoTableError, Session, SessionRegistry};
use collab_grid::storage::build_table;

fn drain(hub: &Hub, sub: &mut HubSubscriber) -> Vec<ClientMessage> {
    let mut out = vec![];
    loop {
        match hub.recv(sub) {
            RecvOutcome::Empty => break,
            RecvOutcome::Lagged { .. } => {}
            RecvOutcome::Msg(m) => out.push(m),
        }
    }
    out
}

fn insert_frame(claimed_id: u64, cell: (u64, u64), index: u64, text: &[u8]) -> Vec<u8> {
    encode_msg(&ClientMessage::Insert {
        client_id: claimed_id,
        cell,
        index,
        text: text.to_vec(),
    })
}

#[test]
fn single_cell_happy_path() {
    // open a table whose cell (0,0) holds "Hello"
    let table = build_table(1, 1, &vec![(0, 0, b"Hello".to_vec())]);
    let mut session = Session::new(table);
    let mut ids = ClientIdAllocator::new();
    let (a, mut sub_a, init) = session.attach(&mut ids);
    match init {
        ClientMessage::Init { client_id, table } => {
            assert_eq!(client_id, a);
            assert_eq!(table.len(), 1);
            assert_eq!(table[0][0].text, b"Hello".to_vec());
            assert_eq!(table[0][0].owner_id, None);
        }
        other => panic!("expected an init frame, got {:?}", other),
    }
    // A sends insert{cell:[0,0], index:5, text:", World!"}
    session.client_frame(a, &insert_frame(999, (0, 0), 5, b", World!"));
    let events = drain(&session.hub, &mut sub_a);
    assert_eq!(events, vec![
        ClientMessage::Insert { client_id: a, cell: (0, 0), index: 5, text: b", World!".to_vec() },
        ClientMessage::AcquireLock { client_id: a, cell: (0, 0) },
    ]);
    // ~3s of no activity: three sweeper passes
    assert!(session.sweep_once().is_empty());
    assert!(session.sweep_once().is_empty());
    let writebacks = session.sweep_once();
    assert_eq!(writebacks, vec![(0, 0, b"Hello, World!".to_vec())]);
    let events = drain(&session.hub, &mut sub_a);
    assert_eq!(events, vec![ClientMessage::ReleaseLock { cell: (0, 0) }]);
}

#[test]
fn contention_second_writer_waits_for_expiry() {
    let table = build_table(1, 1, &vec![(0, 0, b"base".to_vec())]);
    let mut session = Session::new(table);
    let mut ids = ClientIdAllocator::new();
    let (a, mut sub_a, _) = session.attach(&mut ids);
    let (b, mut sub_b, _) = session.attach(&mut ids);
    // A locks the cell via an insert
    session.client_frame(a, &insert_frame(0, (0, 0), 0, b"A"));
    // B sends a replace before A's lock expires: no broadcast, no change
    session.client_frame(b, &encode_msg(&ClientMessage::Replace {
        client_id: 0,
        cell: (0, 0),
        start: 0,
        end: 1,
        text: b"B".to_vec(),
    }));
    let a_events = drain(&session.hub, &mut sub_a);
    assert_eq!(a_events.len(), 2); // only A's insert + acquire
    let b_events = drain(&session.hub, &mut sub_b);
    assert_eq!(b_events.len(), 2); // B sees the same two, nothing of its own
    assert_eq!(session.table.cells[0][0].text, b"Abase".to_vec());
    // lock expires
    session.sweep_once();
    session.sweep_once();
    session.sweep_once();
    // B retries and succeeds
    session.client_frame(b, &encode_msg(&ClientMessage::Replace {
        client_id: 0,
        cell: (0, 0),
        start: 0,
        end: 1,
        text: b"B".to_vec(),
    }));
    let b_events = drain(&session.hub, &mut sub_b);
    assert_eq!(b_events, vec![
        ClientMessage::ReleaseLock { cell: (0, 0) },
        ClientMessage::Replace { client_id: b, cell: (0, 0), start: 0, end: 1, text: b"B".to_vec() },
        ClientMessage::AcquireLock { client_id: b, cell: (0, 0) },
    ]);
    assert_eq!(session.table.cells[0][0].text, b"Bbase".to_vec());
}

#[test]
fn disconnect_mid_lock_sweeper_reclaims() {
    let table = build_table(3, 2, &vec![]);
    let mut session = Session::new(table);
    let mut ids = ClientIdAllocator::new();
    let (a, _sub_a, _) = session.attach(&mut ids);
    let (_b, mut sub_b, _) = session.attach(&mut ids);
    // A writes to (1,2) and disconnects
    session.client_frame(a, &insert_frame(0, (1, 2), 0, b"ghost"));
    session.detach();
    assert_eq!(session.subscriber_count, 1);
    // the lock survives the disconnect
    assert_eq!(session.table.cells[1][2].lock.unwrap().owner_id, a);
    // ~3s later the sweeper releases it and the remaining subscriber hears it
    session.sweep_once();
    session.sweep_once();
    let wb = session.sweep_once();
    assert_eq!(wb, vec![(1, 2, b"ghost".to_vec())]);
    let b_events = drain(&session.hub, &mut sub_b);
    assert!(b_events.contains(&ClientMessage::ReleaseLock { cell: (1, 2) }));
}

#[test]
fn two_cells_in_parallel_same_total_order() {
    let table = build_table(2, 1, &vec![]);
    let mut session = Session::new(table);
    let mut ids = ClientIdAllocator::new();
    let (a, mut sub_a, _) = session.attach(&mut ids);
    let (b, mut sub_b, _) = session.attach(&mut ids);
    session.client_frame(a, &insert_frame(0, (0, 0), 0, b"left"));
    session.client_frame(b, &insert_frame(0, (0, 1), 0, b"right"));
    let a_sees = drain(&session.hub, &mut sub_a);
    let b_sees = drain(&session.hub, &mut sub_b);
    // both subscribers observe both edits, in the same total order,
    // each event carrying the acquirer's id
    assert_eq!(a_sees, b_sees);
    assert_eq!(a_sees, vec![
        ClientMessage::Insert { client_id: a, cell: (0, 0), index: 0, text: b"left".to_vec() },
        ClientMessage::AcquireLock { client_id: a, cell: (0, 0) },
        ClientMessage::Insert { client_id: b, cell: (0, 1), index: 0, text: b"right".to_vec() },
        ClientMessage::AcquireLock { client_id: b, cell: (0, 1) },
    ]);
}

#[test]
fn undecodable_frames_are_silently_ignored() {
    let table = build_table(1, 1, &vec![]);
    let mut session = Session::new(table);
    let mut ids = ClientIdAllocator::new();
    let (a, mut sub_a, _) = session.attach(&mut ids);
    session.client_frame(a, b"not json at all");
    session.client_frame(a, br#"{"type":"acquire_lock","client_id":9,"cell":[0,0]}"#);
    assert!(drain(&session.hub, &mut sub_a).is_empty());
    assert!(session.table.cells[0][0].lock.is_none());
}

#[test]
fn snapshot_reports_owner_iff_locked() {
    let table = build_table(2, 1, &vec![(0, 0, b"locked".to_vec())]);
    let mut session = Session::new(table);
    let mut ids = ClientIdAllocator::new();
    let (a, _sub, _) = session.attach(&mut ids);
    session.client_frame(a, &insert_frame(0, (0, 0), 99, b"!"));
    // a later subscriber's snapshot sees the lock and the current text
    let (_b, _sub_b, init_b) = session.attach(&mut ids);
    match init_b {
        ClientMessage::Init { table, .. } => {
            assert_eq!(table[0][0].text, b"locked!".to_vec());
            assert_eq!(table[0][0].owner_id, Some(a));
            assert_eq!(table[0][1].text, b"".to_vec());
            assert_eq!(table[0][1].owner_id, None);
        }
        other => panic!("expected an init frame, got {:?}", other),
    }
}

#[test]
fn late_subscriber_sees_only_later_events() {
    let table = build_table(1, 1, &vec![]);
    let mut session = Session::new(table);
    let mut ids = ClientIdAllocator::new();
    let (a, _sub_a, _) = session.attach(&mut ids);
    session.client_frame(a, &insert_frame(0, (0, 0), 0, b"early"));
    // B subscribes after the first edit and sees only what follows
    let (_b, mut sub_b, _) = session.attach(&mut ids);
    session.client_frame(a, &insert_frame(0, (0, 0), 0, b"late"));
    let b_sees = drain(&session.hub, &mut sub_b);
    assert_eq!(b_sees, vec![
        ClientMessage::Insert { client_id: a, cell: (0, 0), index: 0, text: b"late".to_vec() },
        ClientMessage::AcquireLock { client_id: a, cell: (0, 0) },
    ]);
}

#[test]
fn hub_drops_oldest_for_laggards() {
    let mut hub = Hub::new();
    let mut sub = hub.subscribe();
    // publish past the buffer bound of 100
    for i in 0..105u64 {
        hub.publish(ClientMessage::AcquireLock { client_id: i, cell: (0, 0) });
    }
    match hub.recv(&mut sub) {
        RecvOutcome::Lagged { missed } => assert_eq!(missed, 5),
        other => panic!("expected a lag signal, got {:?}", other),
    }
    // after the lag, delivery resumes at the oldest retained event
    match hub.recv(&mut sub) {
        RecvOutcome::Msg(ClientMessage::AcquireLock { client_id, .. }) => {
            assert_eq!(client_id, 5)
        }
        other => panic!("expected event five, got {:?}", other),
    }
    let rest = drain(&hub, &mut sub);
    assert_eq!(rest.len(), 99);
    match hub.recv(&mut sub) {
        RecvOutcome::Empty => {}
        other => panic!("expected an empty hub, got {:?}", other),
    }
}

#[test]
fn registry_materializes_once() {
    let mut reg = SessionRegistry::new();
    let mut loads: usize = 0;
    // first open: absent, so the caller loads from storage and inserts
    let idx = match reg.find(4) {
        Some(i) => i,
        None => {
            loads += 1;
            let table = build_table(1, 1, &vec![(0, 0, b"x".to_vec())]);
            reg.insert_session(4, Session::new(table));
            reg.find(4).expect("present after insert")
        }
    };
    assert_eq!(idx, 0);
    // second open of the same id: present, no load
    match reg.find(4) {
        Some(_) => {}
        None => {
            loads += 1;
        }
    }
    assert_eq!(loads, 1);
    // an unrelated id is still absent
    assert!(reg.find(5).is_none());
}

#[test]
fn unknown_table_reports_no_table() {
    let reg = SessionRegistry::new();
    assert!(reg.find(99999).is_none());
    let e = NoTableError::new(99999);
    assert_eq!(e.table_id, 99999);
}

#[test]
fn client_ids_are_monotonic() {
    let mut ids = ClientIdAllocator::new();
    assert_eq!(ids.allocate(), 0);
    assert_eq!(ids.allocate(), 1);
    assert_eq!(ids.allocate(), 2);
    assert_eq!(ids.next_id, 3);
}

#[test]
fn attach_detach_counts_subscribers() {
    let table = build_table(1, 1, &vec![]);
    let mut session = Session::new(table);
    let mut ids = ClientIdAllocator::new();
    assert_eq!(session.subscriber_count, 0);
    let _ = session.attach(&mut ids);
    let _ = session.attach(&mut ids);
    assert_eq!(session.subscriber_count, 2);
    session.detach();
    assert_eq!(session.subscriber_count, 1);
    assert!(session.sweeper_alive);
}
