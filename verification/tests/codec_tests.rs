use copycat::codec::from_json;
use copycat::codec::to_json;
use copycat::store::HistoryStore;

#[test]
fn empty_store_encodes_as_empty_array() {
    let store = HistoryStore::new();
    assert_eq!(to_json(&store), String::from("[]"));
}

#[test]
fn single_entry_layout_is_exact() {
    let mut store = HistoryStore::new();
    store.ingest_at(String::from("hi"), 42);
    assert_eq!(
        to_json(&store),
        String::from("[{\"id\":42,\"content\":\"hi\",\"timestamp\":42,\"favorite\":false}]")
    );
}

#[test]
fn round_trip_preserves_order_and_fields() {
    let mut store = HistoryStore::new();
    store.ingest_at(String::from("first"), 100);
    store.ingest_at(String::from("second"), 200);
    store.ingest_at(String::from("third"), 300);
    store.toggle_favorite(200);
    let text = to_json(&store);
    let loaded = from_json(text.as_str());
    assert_eq!(loaded.len(), 3);
    for (a, b) in store.entries().iter().zip(loaded.entries().iter()) {
        assert_eq!(a.id, b.id);
        assert_eq!(a.content, b.content);
        assert_eq!(a.timestamp, b.timestamp);
        assert_eq!(a.favorite, b.favorite);
    }
}

#[test]
fn round_trip_escapes_quotes_and_backslashes() {
    let mut store = HistoryStore::new();
    store.ingest_at(String::from("say \"hi\" \\ bye"), 1);
    let text = to_json(&store);
    let loaded = from_json(text.as_str());
    assert_eq!(loaded.len(), 1);
    assert_eq!(loaded.entries()[0].content, String::from("say \"hi\" \\ bye"));
}

#[test]
fn malformed_text_loads_as_empty_store() {
    assert_eq!(from_json("").len(), 0);
    assert_eq!(from_json("not json").len(), 0);
    assert_eq!(from_json("[{\"id\":1}]").len(), 0);
    assert_eq!(from_json("[{\"id\":1,\"content\":\"a\",\"timestamp\":1,\"favorite\":false}").len(), 0);
    assert_eq!(from_json("[]trailing").len(), 0);
}

#[test]
fn duplicate_contents_in_file_load_as_empty_store() {
    let text = "[{\"id\":1,\"content\":\"a\",\"timestamp\":1,\"favorite\":false},{\"id\":2,\"content\":\"a\",\"timestamp\":2,\"favorite\":false}]";
    assert_eq!(from_json(text).len(), 0);
}

#[test]
fn empty_content_in_file_loads_as_empty_store() {
    let text = "[{\"id\":1,\"content\":\"\",\"timestamp\":1,\"favorite\":false}]";
    assert_eq!(from_json(text).len(), 0);
}

#[test]
fn valid_handwritten_file_loads_exactly() {
    let text = "[{\"id\":9,\"content\":\"b\",\"timestamp\":8,\"favorite\":true},{\"id\":3,\"content\":\"a\",\"timestamp\":3,\"favorite\":false}]";
    let loaded = from_json(text);
    assert_eq!(loaded.len(), 2);
    assert_eq!(loaded.entries()[0].id, 9);
    assert_eq!(loaded.entries()[0].content, String::from("b"));
    assert_eq!(loaded.entries()[0].timestamp, 8);
    assert!(loaded.entries()[0].favorite);
    assert_eq!(loaded.entries()[1].id, 3);
    assert!(!loaded.entries()[1].favorite);
}

#[test]
fn overlong_number_in_file_loads_as_empty_store() {
    let text = "[{\"id\":99999999999999999999999,\"content\":\"a\",\"timestamp\":1,\"favorite\":false}]";
    assert_eq!(from_json(text).len(), 0);
}

#[test]
fn large_round_trip() {
    let mut store = HistoryStore::new();
    for k in 0..500u64 {
        store.ingest_at(format!("entry number {}", k), k);
        if k % 7 == 0 {
            store.toggle_favorite(k);
        }
    }
    let text = to_json(&store);
    let loaded = from_json(text.as_str());
    assert_eq!(loaded.len(), store.len());
    for (a, b) in store.entries().iter().zip(loaded.entries().iter()) {
        assert_eq!(a.id, b.id);
        assert_eq!(a.content, b.content);
        assert_eq!(a.timestamp, b.timestamp);
        assert_eq!(a.favorite, b.favorite);
    }
}
