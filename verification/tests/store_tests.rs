use copycat::store::HistoryStore;
use copycat::store::MAX_HISTORY;

fn contents(store: &HistoryStore) -> Vec<String> {
    store.entries().iter().map(|e| e.content.clone()).collect()
}

#[test]
fn ingest_dedupes_and_orders_newest_first() {
    let mut store = HistoryStore::new();
    store.ingest_at(String::from("A"), 1);
    store.ingest_at(String::from("B"), 2);
    store.ingest_at(String::from("A"), 3);
    assert_eq!(contents(&store), vec![String::from("B"), String::from("A")]);
    assert_eq!(store.len(), 2);
}

#[test]
fn ingest_empty_text_is_noop() {
    let mut store = HistoryStore::new();
    store.ingest_at(String::from(""), 1);
    assert_eq!(store.len(), 0);
}

#[test]
fn ingest_duplicate_keeps_ids_and_order() {
    let mut store = HistoryStore::new();
    store.ingest_at(String::from("x"), 10);
    store.ingest_at(String::from("y"), 20);
    store.ingest_at(String::from("x"), 30);
    let ids: Vec<u64> = store.entries().iter().map(|e| e.id).collect();
    assert_eq!(ids, vec![20, 10]);
}

#[test]
fn capacity_two_evicts_oldest() {
    let mut store = HistoryStore::with_capacity(2);
    store.ingest_at(String::from("A"), 1);
    store.ingest_at(String::from("B"), 2);
    store.ingest_at(String::from("C"), 3);
    assert_eq!(contents(&store), vec![String::from("C"), String::from("B")]);
}

#[test]
fn favorite_protects_from_eviction() {
    let mut store = HistoryStore::with_capacity(2);
    store.ingest_at(String::from("A"), 1);
    store.ingest_at(String::from("B"), 2);
    store.ingest_at(String::from("C"), 3);
    // store is ["C", "B"]; mark "B" favorite, then ingest "D".
    let b_id = store.entries()[1].id;
    store.toggle_favorite(b_id);
    store.ingest_at(String::from("D"), 4);
    assert_eq!(contents(&store), vec![String::from("D"), String::from("B")]);
}

#[test]
fn full_of_favorites_still_evicts_oldest() {
    let mut store = HistoryStore::with_capacity(2);
    store.ingest_at(String::from("A"), 1);
    store.ingest_at(String::from("B"), 2);
    let ids: Vec<u64> = store.entries().iter().map(|e| e.id).collect();
    for id in ids {
        store.toggle_favorite(id);
    }
    store.ingest_at(String::from("C"), 3);
    assert_eq!(contents(&store), vec![String::from("C"), String::from("B")]);
}

#[test]
fn over_capacity_run_keeps_bound_and_evicts_first_string() {
    let mut store = HistoryStore::new();
    let mut texts: Vec<String> = Vec::new();
    for k in 0..(MAX_HISTORY + 1) {
        texts.push(format!("snippet-{}", k));
    }
    for (k, t) in texts.iter().enumerate() {
        store.ingest_at(t.clone(), k as u64);
    }
    assert_eq!(store.len(), MAX_HISTORY);
    let held = contents(&store);
    assert!(!held.contains(&String::from("snippet-0")));
    assert!(held.contains(&String::from("snippet-1")));
    assert_eq!(held[0], format!("snippet-{}", MAX_HISTORY));
}

#[test]
fn toggle_favorite_twice_restores_state() {
    let mut store = HistoryStore::new();
    store.ingest_at(String::from("keep"), 7);
    let id = store.entries()[0].id;
    assert!(!store.entries()[0].favorite);
    store.toggle_favorite(id);
    assert!(store.entries()[0].favorite);
    store.toggle_favorite(id);
    assert!(!store.entries()[0].favorite);
}

#[test]
fn toggle_favorite_unknown_id_is_noop() {
    let mut store = HistoryStore::new();
    store.ingest_at(String::from("keep"), 7);
    store.toggle_favorite(999);
    assert_eq!(store.len(), 1);
    assert!(!store.entries()[0].favorite);
    assert_eq!(store.entries()[0].content, String::from("keep"));
}

#[test]
fn delete_removes_only_the_matching_entry() {
    let mut store = HistoryStore::new();
    store.ingest_at(String::from("one"), 1);
    store.ingest_at(String::from("two"), 2);
    store.ingest_at(String::from("three"), 3);
    store.delete(2);
    assert_eq!(contents(&store), vec![String::from("three"), String::from("one")]);
    store.delete(42);
    assert_eq!(store.len(), 2);
}

#[test]
fn clear_all_empties_the_store() {
    let mut store = HistoryStore::new();
    store.ingest_at(String::from("a"), 1);
    store.ingest_at(String::from("b"), 2);
    store.clear_all();
    assert_eq!(store.len(), 0);
}

#[test]
fn clear_non_favorites_retains_favorites_in_order() {
    let mut store = HistoryStore::new();
    store.ingest_at(String::from("a"), 1);
    store.ingest_at(String::from("b"), 2);
    store.ingest_at(String::from("c"), 3);
    store.toggle_favorite(1);
    store.toggle_favorite(3);
    store.clear_non_favorites();
    assert_eq!(contents(&store), vec![String::from("c"), String::from("a")]);
}

#[test]
fn get_clones_the_requested_entry() {
    let mut store = HistoryStore::new();
    store.ingest_at(String::from("pick"), 5);
    let e = store.get(0);
    assert_eq!(e.content, String::from("pick"));
    assert_eq!(e.id, 5);
    assert_eq!(e.timestamp, 5);
    assert!(!e.favorite);
}

#[test]
fn contains_text_finds_exact_matches_only() {
    let mut store = HistoryStore::new();
    store.ingest_at(String::from("Hello"), 1);
    assert!(store.contains_text(&String::from("Hello")));
    assert!(!store.contains_text(&String::from("hello")));
    assert!(!store.contains_text(&String::from("Hell")));
}
