use echo::store::MessageStore;

#[test]
fn get_on_never_stored_id_is_none() {
    let store = MessageStore::new();
    assert!(store.get(&vec![1, 2, 3], 0).is_none());
}

#[test]
fn hit_after_store() {
    let mut store = MessageStore::new();
    store.insert(vec![1; 64], b"hello".to_vec(), None, 100);
    let got = store.get(&vec![1; 64], 100);
    assert_eq!(got, Some(b"hello".to_vec()));
    let much_later = store.get(&vec![1; 64], u64::MAX);
    assert_eq!(much_later, Some(b"hello".to_vec()), "no TTL means no expiry");
}

#[test]
fn overwrite_keeps_last_value() {
    let mut store = MessageStore::new();
    store.insert(vec![8; 4], b"first".to_vec(), None, 0);
    store.insert(vec![8; 4], b"second".to_vec(), None, 1);
    assert_eq!(store.get(&vec![8; 4], 2), Some(b"second".to_vec()));
}

#[test]
fn distinct_ids_do_not_collide() {
    let mut store = MessageStore::new();
    store.insert(vec![0, 0], b"a".to_vec(), None, 0);
    store.insert(vec![0, 1], b"b".to_vec(), None, 0);
    assert_eq!(store.get(&vec![0, 0], 5), Some(b"a".to_vec()));
    assert_eq!(store.get(&vec![0, 1], 5), Some(b"b".to_vec()));
}

#[test]
fn ttl_expiry_behaves_as_absent() {
    let mut store = MessageStore::new();
    store.insert(vec![3; 8], b"short lived".to_vec(), Some(1), 100);
    assert_eq!(
        store.get(&vec![3; 8], 100),
        Some(b"short lived".to_vec()),
        "still live before the TTL elapses"
    );
    assert!(store.get(&vec![3; 8], 101).is_none(), "expired entry must act absent");
    assert!(store.get(&vec![3; 8], u64::MAX).is_none());
}

#[test]
fn overwrite_refreshes_ttl() {
    let mut store = MessageStore::new();
    store.insert(vec![4], b"old".to_vec(), Some(1), 0);
    store.insert(vec![4], b"new".to_vec(), Some(100), 0);
    assert_eq!(store.get(&vec![4], 50), Some(b"new".to_vec()));
}

#[test]
fn saturating_ttl_never_expires() {
    let mut store = MessageStore::new();
    store.insert(vec![5], b"forever".to_vec(), Some(u64::MAX), 10);
    assert_eq!(store.get(&vec![5], u64::MAX - 1), Some(b"forever".to_vec()));
}
