use chat_store::store::MessageStore;
use chat_store::timestamp::Timestamp;

fn ts(micros: i64) -> Timestamp {
    Timestamp { micros }
}

#[test]
fn created_ids_increase_monotonically() {
    let mut store = MessageStore::new();
    let mut last_id: i64 = 0;
    for k in 0..10i64 {
        let m = store.create_at(format!("message {}", k), "alice".to_string(), ts(1000 - k));
        assert!(m.id > last_id);
        last_id = m.id;
    }
    // The clock-stamped path issues from the same counter.
    let m = store.create("latest".to_string(), "bob".to_string());
    assert!(m.id > last_id);
}

#[test]
fn point_lookup_finds_what_was_created() {
    let mut store = MessageStore::new();
    let created = store.create_at("Hello, world!".to_string(), "Test User".to_string(), ts(7));
    let other = store.create_at("second".to_string(), "carol".to_string(), ts(8));

    let found = store.get_by_id(created.id).expect("created message must be found");
    assert_eq!(found.content, "Hello, world!");
    assert_eq!(found.sender, "Test User");
    assert_eq!(found.timestamp, ts(7));
    assert_eq!(found.id, created.id);

    let found2 = store.get_by_id(other.id).expect("created message must be found");
    assert_eq!(found2.content, "second");
}

#[test]
fn point_lookup_of_never_issued_id_is_absent() {
    let mut store = MessageStore::new();
    assert!(store.get_by_id(1).is_none());
    store.create_at("only".to_string(), "alice".to_string(), ts(1));
    assert!(store.get_by_id(2).is_none());
    assert!(store.get_by_id(999).is_none());
    assert!(store.get_by_id(0).is_none());
    assert!(store.get_by_id(-1).is_none());
}

#[test]
fn query_orders_newest_first() {
    let mut store = MessageStore::new();
    let instants = [50i64, 10, 40, 20, 30, 60, 0];
    for (k, &m) in instants.iter().enumerate() {
        store.create_at(format!("m{}", k), "alice".to_string(), ts(m));
    }
    let page = store.query_ordered_before(None, 100);
    let got: Vec<i64> = page.iter().map(|m| m.timestamp.micros).collect();
    assert_eq!(got, vec![60, 50, 40, 30, 20, 10, 0]);
}

#[test]
fn query_bound_is_exclusive() {
    let mut store = MessageStore::new();
    for m in [10i64, 20, 30] {
        store.create_at("x".to_string(), "a".to_string(), ts(m));
    }
    let page = store.query_ordered_before(Some(ts(20)), 100);
    let got: Vec<i64> = page.iter().map(|m| m.timestamp.micros).collect();
    assert_eq!(got, vec![10]);
    let all = store.query_ordered_before(Some(ts(31)), 100);
    assert_eq!(all.len(), 3);
}

#[test]
fn query_respects_limit() {
    let mut store = MessageStore::new();
    for m in 0..10i64 {
        store.create_at("x".to_string(), "a".to_string(), ts(m));
    }
    let page = store.query_ordered_before(None, 4);
    let got: Vec<i64> = page.iter().map(|m| m.timestamp.micros).collect();
    assert_eq!(got, vec![9, 8, 7, 6]);
    let empty = store.query_ordered_before(None, 0);
    assert!(empty.is_empty());
}

#[test]
fn query_breaks_timestamp_ties_by_descending_id() {
    let mut store = MessageStore::new();
    let a = store.create_at("first".to_string(), "a".to_string(), ts(5));
    let b = store.create_at("second".to_string(), "a".to_string(), ts(5));
    let c = store.create_at("third".to_string(), "a".to_string(), ts(4));
    let page = store.query_ordered_before(None, 10);
    let ids: Vec<i64> = page.iter().map(|m| m.id).collect();
    assert_eq!(ids, vec![b.id, a.id, c.id]);
}
