use chat_store::cursor::{encode_cursor, CursorError};
use chat_store::page::{build_connection, effective_limit, paginate};
use chat_store::store::MessageStore;
use chat_store::timestamp::Timestamp;

fn ts(micros: i64) -> Timestamp {
    Timestamp { micros }
}

fn store_with(instants: &[i64]) -> MessageStore {
    let mut store = MessageStore::new();
    for (k, &m) in instants.iter().enumerate() {
        store.create_at(format!("m{}", k), "alice".to_string(), ts(m));
    }
    store
}

#[test]
fn effective_limit_default_and_clamps() {
    assert_eq!(effective_limit(None), 20);
    assert_eq!(effective_limit(Some(7)), 7);
    assert_eq!(effective_limit(Some(100)), 100);
    assert_eq!(effective_limit(Some(101)), 100);
    assert_eq!(effective_limit(Some(500)), 100);
    // Non-positive sizes are raised to the documented floor of 1.
    assert_eq!(effective_limit(Some(0)), 1);
    assert_eq!(effective_limit(Some(-5)), 1);
}

#[test]
fn page_size_is_clamped_to_100() {
    let instants: Vec<i64> = (0..150).collect();
    let store = store_with(&instants);
    let conn = paginate(&store, Some(500), None).expect("no cursor, must succeed");
    assert_eq!(conn.edges.len(), 100);
    assert!(conn.page_info.has_next_page);
}

#[test]
fn edges_carry_their_own_cursors() {
    let store = store_with(&[3, 1, 2]);
    let conn = paginate(&store, None, None).expect("no cursor, must succeed");
    assert_eq!(conn.edges.len(), 3);
    for edge in &conn.edges {
        assert_eq!(edge.cursor, encode_cursor(edge.node.timestamp));
    }
    let last = conn.edges.last().unwrap();
    assert_eq!(conn.page_info.end_cursor.as_deref(), Some(last.cursor.as_str()));
}

#[test]
fn empty_store_lists_an_empty_page() {
    let store = MessageStore::new();
    let conn = paginate(&store, None, None).expect("no cursor, must succeed");
    assert!(conn.edges.is_empty());
    assert!(!conn.page_info.has_next_page);
    assert_eq!(conn.page_info.end_cursor, None);
}

#[test]
fn invalid_cursor_is_a_client_error() {
    let store = store_with(&[1, 2, 3]);
    let err = paginate(&store, None, Some("definitely not a cursor"));
    assert!(matches!(err, Err(CursorError::InvalidCursor)));
}

#[test]
fn has_next_page_heuristic_on_exact_multiple() {
    // Exactly 20 rows and a request for 20: the page comes back full, so a
    // next page is announced even though nothing is left.
    let instants: Vec<i64> = (1..=20).collect();
    let store = store_with(&instants);

    let first = paginate(&store, Some(20), None).expect("no cursor, must succeed");
    assert_eq!(first.edges.len(), 20);
    assert!(first.page_info.has_next_page);

    let end = first.page_info.end_cursor.expect("non-empty page has an end cursor");
    let second = paginate(&store, Some(20), Some(end.as_str())).expect("own cursor must decode");
    assert_eq!(second.edges.len(), 0);
    assert!(!second.page_info.has_next_page);
    assert_eq!(second.page_info.end_cursor, None);
}

#[test]
fn two_page_walk_over_three_messages() {
    // Three messages at T1 < T2 < T3: the first page of two is [T3, T2] and
    // announces more; resuming returns [T1] and stops.
    let t1 = 100i64;
    let t2 = 200i64;
    let t3 = 300i64;
    let store = store_with(&[t1, t2, t3]);

    let first = paginate(&store, Some(2), None).expect("no cursor, must succeed");
    let got: Vec<i64> = first.edges.iter().map(|e| e.node.timestamp.micros).collect();
    assert_eq!(got, vec![t3, t2]);
    assert!(first.page_info.has_next_page);

    let end = first.page_info.end_cursor.expect("non-empty page has an end cursor");
    assert_eq!(end, encode_cursor(ts(t2)));

    let second = paginate(&store, Some(2), Some(end.as_str())).expect("own cursor must decode");
    let got: Vec<i64> = second.edges.iter().map(|e| e.node.timestamp.micros).collect();
    assert_eq!(got, vec![t1]);
    assert!(!second.page_info.has_next_page);
}

#[test]
fn build_connection_metadata_follows_the_page() {
    let store = store_with(&[5, 6, 7]);
    let messages = store.query_ordered_before(None, 2);
    let conn = build_connection(messages, 2);
    assert_eq!(conn.edges.len(), 2);
    assert!(conn.page_info.has_next_page);
    assert_eq!(
        conn.page_info.end_cursor.as_deref(),
        Some(encode_cursor(ts(6)).as_str())
    );

    let all = store.query_ordered_before(None, 10);
    let conn = build_connection(all, 10);
    assert_eq!(conn.edges.len(), 3);
    assert!(!conn.page_info.has_next_page);
}
