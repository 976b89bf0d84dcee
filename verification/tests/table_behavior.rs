use echo::connection::Connection;
use echo::table::ConnectionTable;

#[test]
fn admission_control_refuses_when_full() {
    let capacity: usize = 3;
    let mut table = ConnectionTable::new(capacity);
    assert_eq!(table.capacity(), capacity);
    let mut tokens: Vec<usize> = Vec::new();
    for _ in 0..capacity {
        let token = table.insert(Connection::new(8)).expect("free slot expected");
        assert!(!tokens.contains(&token), "tokens must be distinct");
        tokens.push(token);
    }
    // The connection past capacity is refused, and the first N stay served.
    assert!(table.insert(Connection::new(8)).is_none());
    for token in &tokens {
        let conn = table.take(*token).expect("admitted connection must still be there");
        assert!(!conn.is_closed());
        table.put(*token, conn);
    }
}

#[test]
fn freed_slots_are_reused() {
    let mut table = ConnectionTable::new(2);
    let first = table.insert(Connection::new(4)).unwrap();
    let second = table.insert(Connection::new(4)).unwrap();
    assert!(table.insert(Connection::new(4)).is_none());
    assert!(table.take(first).is_some());
    let reused = table.insert(Connection::new(4)).expect("freed slot must be reusable");
    assert_eq!(reused, first);
    assert!(table.take(second).is_some());
}

#[test]
fn take_of_empty_or_bad_token_is_none() {
    let mut table = ConnectionTable::new(1);
    assert!(table.take(0).is_none());
    assert!(table.take(7).is_none());
    let token = table.insert(Connection::new(4)).unwrap();
    assert!(table.take(token).is_some());
    assert!(table.take(token).is_none(), "a slot empties once taken");
}

#[test]
fn zero_capacity_admits_nothing() {
    let mut table = ConnectionTable::new(0);
    assert!(table.insert(Connection::new(4)).is_none());
}
