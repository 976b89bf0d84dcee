use echo::connection::Connection;
use echo::protocol::{encode_operation, Operation};
use echo::store::MessageStore;

fn feed(conn: &mut Connection, store: &mut MessageStore, bytes: &[u8], now: u64) {
    conn.append_incoming(&bytes.to_vec());
    conn.process_incoming_plaintext(store, now);
}

#[test]
fn store_then_retrieve_end_to_end() {
    // The application-data half of the end-to-end exchange: a Store of
    // "hello" under a 64-zero-byte id is answered with the single byte 0x00,
    // and the following Retrieve with big-endian 5 then "hello".
    let mut conn = Connection::new(64);
    let mut store = MessageStore::new();

    let store_op = Operation::Store { id: vec![0; 64], data: b"hello".to_vec(), ttl: None };
    feed(&mut conn, &mut store, &encode_operation(&store_op), 0);
    assert_eq!(conn.outgoing_plaintext().as_slice(), &[0x00]);
    conn.consume_outgoing_plaintext(1);

    let retrieve_op = Operation::Retrieve { id: vec![0; 64] };
    feed(&mut conn, &mut store, &encode_operation(&retrieve_op), 0);
    let mut expected = vec![0, 0, 0, 5];
    expected.extend_from_slice(b"hello");
    assert_eq!(conn.outgoing_plaintext().as_slice(), expected.as_slice());
}

fn miss_response_of(id_byte: u8) -> Vec<u8> {
    let mut conn = Connection::new(4);
    let mut store = MessageStore::new();
    let op = Operation::Retrieve { id: vec![id_byte; 4] };
    feed(&mut conn, &mut store, &encode_operation(&op), 0);
    conn.outgoing_plaintext().clone()
}

#[test]
fn miss_has_plausible_length_and_exact_payload() {
    let out = miss_response_of(0xEE);
    assert!(out.len() >= 4);
    let len = u32::from_be_bytes([out[0], out[1], out[2], out[3]]) as usize;
    assert!((64..=1024).contains(&len), "miss length {len} outside [64, 1024]");
    assert_eq!(out.len(), 4 + len, "payload length must match the length field");
}

#[test]
fn repeated_misses_vary() {
    let a = miss_response_of(1);
    let b = miss_response_of(1);
    let c = miss_response_of(1);
    assert!(a != b || b != c, "three identical random miss responses");
}

#[test]
fn fragmented_store_across_appends() {
    let mut conn = Connection::new(2);
    let mut store = MessageStore::new();
    let op = Operation::Store { id: vec![1, 2], data: b"abc".to_vec(), ttl: Some(7) };
    let frame = encode_operation(&op);
    let split: usize = frame.len() / 2;
    feed(&mut conn, &mut store, &frame[..split], 0);
    assert!(
        conn.outgoing_plaintext().is_empty(),
        "no response may appear before the frame is complete"
    );
    feed(&mut conn, &mut store, &frame[split..], 0);
    assert_eq!(conn.outgoing_plaintext().as_slice(), &[0x00]);
    assert_eq!(store.get(&vec![1, 2], 0), Some(b"abc".to_vec()));
}

#[test]
fn desync_discards_buffer_and_answers_nothing() {
    let mut conn = Connection::new(2);
    let mut store = MessageStore::new();
    let mut bytes = vec![0xFF];
    bytes.extend_from_slice(&encode_operation(&Operation::Retrieve { id: vec![1, 2] }));
    feed(&mut conn, &mut store, &bytes, 0);
    assert!(conn.outgoing_plaintext().is_empty());
    // The buffer was discarded whole: completing what once looked like a
    // frame decodes nothing.
    feed(&mut conn, &mut store, b"", 0);
    assert!(conn.outgoing_plaintext().is_empty());
    assert!(!conn.is_closed(), "desync alone does not close the connection");
}

#[test]
fn write_bookkeeping_and_closing() {
    let mut conn = Connection::new(4);
    assert!(!conn.is_closed());
    assert!(!conn.wants_write(false));
    assert!(conn.wants_write(true), "pending TLS records demand write interest");

    conn.append_outgoing_tls(&vec![1, 2, 3, 4, 5]);
    assert!(conn.wants_write(false));
    conn.note_socket_write(3);
    assert_eq!(conn.outgoing_tls().as_slice(), &[4, 5]);
    conn.note_socket_write(0);
    assert!(conn.is_closed(), "a zero-length socket write forces closing");
}

#[test]
fn partial_plaintext_encryption_keeps_remainder() {
    let mut conn = Connection::new(64);
    let mut store = MessageStore::new();
    let op = Operation::Store { id: vec![9; 64], data: vec![7], ttl: None };
    feed(&mut conn, &mut store, &encode_operation(&op), 0);
    feed(&mut conn, &mut store, &encode_operation(&op), 0);
    assert_eq!(conn.outgoing_plaintext().as_slice(), &[0x00, 0x00]);
    conn.consume_outgoing_plaintext(1);
    assert_eq!(conn.outgoing_plaintext().as_slice(), &[0x00]);
}

#[test]
fn operations_execute_in_arrival_order() {
    let mut conn = Connection::new(1);
    let mut store = MessageStore::new();
    let mut bytes = encode_operation(&Operation::Store {
        id: vec![1],
        data: b"first".to_vec(),
        ttl: None,
    });
    bytes.extend_from_slice(&encode_operation(&Operation::Store {
        id: vec![1],
        data: b"second".to_vec(),
        ttl: None,
    }));
    bytes.extend_from_slice(&encode_operation(&Operation::Retrieve { id: vec![1] }));
    feed(&mut conn, &mut store, &bytes, 0);
    let mut expected = vec![0x00, 0x00, 0, 0, 0, 6];
    expected.extend_from_slice(b"second");
    assert_eq!(conn.outgoing_plaintext().as_slice(), expected.as_slice());
}
