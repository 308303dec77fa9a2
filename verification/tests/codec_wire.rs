//! Wire-format tests: exact frames for each message type, the
//! encode/decode round trip, and rejection of malformed frames.

use collab_grid::codec::{decode_msg, encode_msg};
use collab_grid::msg::{ClientMessage, TableCellClientView};

fn round_trip(m: ClientMessage) -> ClientMessage {
    let bytes = encode_msg(&m);
    decode_msg(&bytes).expect("canonical frame must decode")
}

#[test]
fn encode_insert_exact() {
    let m = ClientMessage::Insert {
        client_id: 5,
        cell: (0, 0),
        index: 5,
        text: b", World!".to_vec(),
    };
    let bytes = encode_msg(&m);
    assert_eq!(
        bytes,
        br#"{"type":"insert","client_id":5,"cell":[0,0],"index":5,"text":", World!"}"#.to_vec()
    );
}

#[test]
fn encode_delete_exact() {
    let m = ClientMessage::Delete { client_id: 12, cell: (3, 7), start: 2, end: 9 };
    let bytes = encode_msg(&m);
    assert_eq!(
        bytes,
        br#"{"type":"delete","client_id":12,"cell":[3,7],"start":2,"end":9}"#.to_vec()
    );
}

#[test]
fn encode_release_lock_exact() {
    let m = ClientMessage::ReleaseLock { cell: (1, 2) };
    let bytes = encode_msg(&m);
    assert_eq!(bytes, br#"{"type":"release_lock","cell":[1,2]}"#.to_vec());
}

#[test]
fn encode_init_exact() {
    let m = ClientMessage::Init {
        client_id: 1,
        table: vec![vec![
            TableCellClientView { text: b"a".to_vec(), owner_id: Some(3) },
            TableCellClientView { text: b"b".to_vec(), owner_id: None },
        ]],
    };
    let bytes = encode_msg(&m);
    assert_eq!(
        bytes,
        br#"{"type":"init","client_id":1,"table":[[{"text":"a","owner_id":3},{"text":"b","owner_id":null}]]}"#
            .to_vec()
    );
}

#[test]
fn encode_escapes_exact() {
    let m = ClientMessage::Insert {
        client_id: 0,
        cell: (0, 0),
        index: 0,
        text: b"a\"b\\c\nd".to_vec(),
    };
    let bytes = encode_msg(&m);
    assert_eq!(
        bytes,
        br#"{"type":"insert","client_id":0,"cell":[0,0],"index":0,"text":"a\"b\\c\u000ad"}"#
            .to_vec()
    );
}

#[test]
fn round_trip_insert() {
    let m = ClientMessage::Insert {
        client_id: u64::MAX,
        cell: (18446744073709551615, 0),
        index: 42,
        text: b"hello".to_vec(),
    };
    assert_eq!(round_trip(m), ClientMessage::Insert {
        client_id: u64::MAX,
        cell: (u64::MAX, 0),
        index: 42,
        text: b"hello".to_vec(),
    });
}

#[test]
fn round_trip_delete() {
    let m = ClientMessage::Delete { client_id: 7, cell: (1, 1), start: 0, end: 0 };
    let back = round_trip(ClientMessage::Delete { client_id: 7, cell: (1, 1), start: 0, end: 0 });
    assert_eq!(back, m);
}

#[test]
fn round_trip_replace() {
    let m = ClientMessage::Replace {
        client_id: 9,
        cell: (2, 3),
        start: 1,
        end: 4,
        text: b"xyz".to_vec(),
    };
    let back = round_trip(ClientMessage::Replace {
        client_id: 9,
        cell: (2, 3),
        start: 1,
        end: 4,
        text: b"xyz".to_vec(),
    });
    assert_eq!(back, m);
}

#[test]
fn round_trip_insert_rows() {
    let m = ClientMessage::InsertRows { client_id: 4, insertion_index: 1, num_rows: 2 };
    let back = round_trip(ClientMessage::InsertRows {
        client_id: 4,
        insertion_index: 1,
        num_rows: 2,
    });
    assert_eq!(back, m);
}

#[test]
fn round_trip_acquire_and_release() {
    let a = ClientMessage::AcquireLock { client_id: 11, cell: (0, 5) };
    let back = round_trip(ClientMessage::AcquireLock { client_id: 11, cell: (0, 5) });
    assert_eq!(back, a);
    let r = ClientMessage::ReleaseLock { cell: (6, 6) };
    let back = round_trip(ClientMessage::ReleaseLock { cell: (6, 6) });
    assert_eq!(back, r);
}

#[test]
fn round_trip_init() {
    let mk = || ClientMessage::Init {
        client_id: 2,
        table: vec![
            vec![
                TableCellClientView { text: b"Hello".to_vec(), owner_id: None },
                TableCellClientView { text: vec![], owner_id: Some(0) },
            ],
            vec![
                TableCellClientView { text: "héllo".as_bytes().to_vec(), owner_id: None },
                TableCellClientView { text: b"\"q\"".to_vec(), owner_id: Some(77) },
            ],
        ],
    };
    assert_eq!(round_trip(mk()), mk());
}

#[test]
fn round_trip_init_empty_table() {
    let mk = || ClientMessage::Init { client_id: 0, table: vec![] };
    assert_eq!(round_trip(mk()), mk());
    let mk2 = || ClientMessage::Init { client_id: 0, table: vec![vec![]] };
    assert_eq!(round_trip(mk2()), mk2());
}

#[test]
fn round_trip_multibyte_text() {
    // Byte offsets address the UTF-8 encoding; multi-byte content
    // passes through the codec unchanged.
    let mk = || ClientMessage::Insert {
        client_id: 1,
        cell: (0, 0),
        index: 3,
        text: "αβ€".as_bytes().to_vec(),
    };
    assert_eq!(round_trip(mk()), mk());
}

#[test]
fn decode_accepts_short_escapes() {
    let bytes =
        br#"{"type":"insert","client_id":0,"cell":[0,0],"index":0,"text":"a\nb\tc\/d"}"#;
    let m = decode_msg(bytes).expect("frame with short escapes must decode");
    assert_eq!(m, ClientMessage::Insert {
        client_id: 0,
        cell: (0, 0),
        index: 0,
        text: b"a\nb\tc/d".to_vec(),
    });
}

#[test]
fn decode_rejects_malformed() {
    assert!(decode_msg(b"").is_none());
    assert!(decode_msg(b"not json").is_none());
    assert!(decode_msg(br#"{"type":"shout","client_id":1}"#).is_none());
    // truncated frame
    assert!(decode_msg(br#"{"type":"insert","client_id":5,"cell":[0,0]"#).is_none());
    // trailing bytes after the closing brace
    assert!(decode_msg(br#"{"type":"release_lock","cell":[1,2]}x"#).is_none());
    // number past u64::MAX
    assert!(decode_msg(br#"{"type":"release_lock","cell":[18446744073709551616,0]}"#)
        .is_none());
    // raw control byte inside a string
    assert!(decode_msg(b"{\"type\":\"insert\",\"client_id\":0,\"cell\":[0,0],\"index\":0,\"text\":\"a\x01b\"}").is_none());
}

#[test]
fn decode_number_boundaries() {
    let m = decode_msg(br#"{"type":"release_lock","cell":[18446744073709551615,0]}"#)
        .expect("u64::MAX must parse");
    assert_eq!(m, ClientMessage::ReleaseLock { cell: (u64::MAX, 0) });
}

#[test]
fn decode_accepts_unicode_escape_below_ascii_bound() {
    let bytes = br#"{"type":"insert","client_id":0,"cell":[0,0],"index":0,"text":"A\u000a"}"#;
    let m = decode_msg(bytes).expect("ascii unicode escapes must decode");
    assert_eq!(m, ClientMessage::Insert {
        client_id: 0,
        cell: (0, 0),
        index: 0,
        text: b"A\n".to_vec(),
    });
}

#[test]
fn decode_rejects_bad_escapes() {
    // unknown escape letter
    assert!(decode_msg(br#"{"type":"insert","client_id":0,"cell":[0,0],"index":0,"text":"\q"}"#).is_none());
    // non-hex digits in a unicode escape
    assert!(decode_msg(br#"{"type":"insert","client_id":0,"cell":[0,0],"index":0,"text":"\u00zz"}"#).is_none());
    // an escape at or above 0x80 addresses a code point, not a byte
    assert!(decode_msg(br#"{"type":"insert","client_id":0,"cell":[0,0],"index":0,"text":"\u00e9"}"#).is_none());
    // truncated escape at end of string
    assert!(decode_msg(br#"{"type":"insert","client_id":0,"cell":[0,0],"index":0,"text":"\"#).is_none());
}
