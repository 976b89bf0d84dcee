use echo::protocol::{encode_operation, parse_message_from_buffer, Operation};

fn store_frame(id: &[u8], data: &[u8], ttl: Option<u64>) -> Vec<u8> {
    let op = Operation::Store { id: id.to_vec(), data: data.to_vec(), ttl };
    encode_operation(&op)
}

fn retrieve_frame(id: &[u8]) -> Vec<u8> {
    let op = Operation::Retrieve { id: id.to_vec() };
    encode_operation(&op)
}

#[test]
fn encode_store_exact_bytes() {
    let frame = store_frame(&[0xAA, 0xBB], &[1, 2, 3], None);
    assert_eq!(frame, vec![0x01, 0xAA, 0xBB, 0, 0, 0, 3, 1, 2, 3, 0x00]);
}

#[test]
fn encode_store_with_ttl_exact_bytes() {
    let frame = store_frame(&[0x07], &[9], Some(258));
    assert_eq!(
        frame,
        vec![0x01, 0x07, 0, 0, 0, 1, 9, 0x01, 0, 0, 0, 0, 0, 0, 1, 2]
    );
}

#[test]
fn encode_retrieve_exact_bytes() {
    let frame = retrieve_frame(&[0xDE, 0xAD]);
    assert_eq!(frame, vec![0x02, 0xDE, 0xAD]);
}

#[test]
fn round_trip_store() {
    let mut buf = store_frame(&[5; 4], b"payload", None);
    buf.extend_from_slice(&[0x02, 9, 9]);
    let got = parse_message_from_buffer(&mut buf, 4);
    match got {
        Some(Operation::Store { id, data, ttl }) => {
            assert_eq!(id, vec![5; 4]);
            assert_eq!(data, b"payload".to_vec());
            assert_eq!(ttl, None);
        }
        _ => panic!("expected a Store operation"),
    }
    assert_eq!(buf, vec![0x02, 9, 9]);
}

#[test]
fn round_trip_store_with_ttl() {
    let mut buf = store_frame(&[1, 2, 3], b"x", Some(u64::MAX));
    let got = parse_message_from_buffer(&mut buf, 3);
    match got {
        Some(Operation::Store { id, data, ttl }) => {
            assert_eq!(id, vec![1, 2, 3]);
            assert_eq!(data, vec![b'x']);
            assert_eq!(ttl, Some(u64::MAX));
        }
        _ => panic!("expected a Store operation"),
    }
    assert!(buf.is_empty());
}

#[test]
fn round_trip_retrieve() {
    let mut buf = retrieve_frame(&[0; 64]);
    buf.push(0xFF);
    let got = parse_message_from_buffer(&mut buf, 64);
    match got {
        Some(Operation::Retrieve { id }) => assert_eq!(id, vec![0; 64]),
        _ => panic!("expected a Retrieve operation"),
    }
    assert_eq!(buf, vec![0xFF]);
}

#[test]
fn empty_buffer_is_incomplete() {
    let mut buf: Vec<u8> = Vec::new();
    assert!(parse_message_from_buffer(&mut buf, 8).is_none());
    assert!(buf.is_empty());
}

#[test]
fn fragmentation_no_partial_consumption() {
    let frame = store_frame(&[7; 8], b"hello world", Some(3600));
    let mut buf: Vec<u8> = Vec::new();
    for (i, byte) in frame.iter().enumerate() {
        buf.push(*byte);
        if i + 1 < frame.len() {
            assert!(
                parse_message_from_buffer(&mut buf, 8).is_none(),
                "decoded with a suffix missing"
            );
            assert_eq!(buf, frame[..i + 1].to_vec(), "buffer consumed while incomplete");
        }
    }
    let got = parse_message_from_buffer(&mut buf, 8);
    match got {
        Some(Operation::Store { id, data, ttl }) => {
            assert_eq!(id, vec![7; 8]);
            assert_eq!(data, b"hello world".to_vec());
            assert_eq!(ttl, Some(3600));
        }
        _ => panic!("expected a Store operation"),
    }
    assert!(buf.is_empty());
}

#[test]
fn desync_discards_whole_buffer() {
    let mut buf = vec![0xFF];
    buf.extend_from_slice(&retrieve_frame(&[1, 2]));
    assert!(parse_message_from_buffer(&mut buf, 2).is_none());
    assert!(buf.is_empty(), "desync must discard everything buffered");
}

#[test]
fn zero_length_payload() {
    let mut buf = store_frame(&[9; 2], b"", None);
    let got = parse_message_from_buffer(&mut buf, 2);
    match got {
        Some(Operation::Store { id, data, ttl }) => {
            assert_eq!(id, vec![9, 9]);
            assert!(data.is_empty());
            assert_eq!(ttl, None);
        }
        _ => panic!("expected a Store operation"),
    }
    assert!(buf.is_empty());
}

#[test]
fn two_frames_decode_in_order() {
    let mut buf = store_frame(&[1], b"a", None);
    buf.extend_from_slice(&retrieve_frame(&[2]));
    let first = parse_message_from_buffer(&mut buf, 1);
    assert!(matches!(first, Some(Operation::Store { .. })));
    let second = parse_message_from_buffer(&mut buf, 1);
    match second {
        Some(Operation::Retrieve { id }) => assert_eq!(id, vec![2]),
        _ => panic!("expected a Retrieve operation"),
    }
    assert!(buf.is_empty());
}
