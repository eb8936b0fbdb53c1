use copycat::dispatch::apply_action;
use copycat::dispatch::apply_actions;
use copycat::dispatch::Action;
use copycat::entry::preview;
use copycat::entry::ClipboardEntry;
use copycat::filter::filtered_history;
use copycat::filter::render_rows;
use copycat::poller::Poller;
use copycat::store::HistoryStore;
use copycat::text::lowercase;

#[test]
fn filter_favorites_and_search_are_anded() {
    let mut store = HistoryStore::new();
    store.ingest_at(String::from("foo bar"), 1);
    store.ingest_at(String::from("FOO baz"), 2);
    store.ingest_at(String::from("plain"), 3);
    store.ingest_at(String::from("Foo fav"), 4);
    store.toggle_favorite(4);
    store.toggle_favorite(1);
    let hits = filtered_history(&store, &String::from("foo"), true);
    let texts: Vec<String> = hits.iter().map(|e| e.content.clone()).collect();
    assert_eq!(texts, vec![String::from("Foo fav"), String::from("foo bar")]);
}

#[test]
fn filter_search_is_case_insensitive_both_ways() {
    let mut store = HistoryStore::new();
    store.ingest_at(String::from("Hello World"), 1);
    let hits = filtered_history(&store, &String::from("hello"), false);
    assert_eq!(hits.len(), 1);
    let hits = filtered_history(&store, &String::from("WORLD"), false);
    assert_eq!(hits.len(), 1);
    let hits = filtered_history(&store, &String::from("mars"), false);
    assert_eq!(hits.len(), 0);
}

#[test]
fn empty_query_without_flag_returns_everything_in_order() {
    let mut store = HistoryStore::new();
    store.ingest_at(String::from("a"), 1);
    store.ingest_at(String::from("b"), 2);
    let hits = filtered_history(&store, &String::from(""), false);
    let texts: Vec<String> = hits.iter().map(|e| e.content.clone()).collect();
    assert_eq!(texts, vec![String::from("b"), String::from("a")]);
}

#[test]
fn lowercase_wrapper_folds_case() {
    assert_eq!(lowercase("AbC"), String::from("abc"));
    assert_eq!(lowercase(""), String::from(""));
}

#[test]
fn poller_due_honours_interval() {
    let p = Poller::new(500);
    assert!(!p.due(0));
    assert!(!p.due(500));
    assert!(p.due(501));
}

#[test]
fn poller_observe_ingests_new_text_once() {
    let mut p = Poller::new(500);
    let mut store = HistoryStore::new();
    p.observe(&mut store, Some(String::from("clip")), 1000, 1);
    assert_eq!(store.len(), 1);
    assert_eq!(p.last_poll_ms, 1000);
    // The same reading again is remembered as last-seen and not re-ingested.
    p.observe(&mut store, Some(String::from("clip")), 2000, 2);
    assert_eq!(store.len(), 1);
    // A failed or empty read changes nothing.
    p.observe(&mut store, None, 3000, 3);
    p.observe(&mut store, Some(String::from("")), 4000, 4);
    assert_eq!(store.len(), 1);
    // New text lands in front.
    p.observe(&mut store, Some(String::from("next")), 5000, 5);
    assert_eq!(store.len(), 2);
    assert_eq!(store.entries()[0].content, String::from("next"));
}

#[test]
fn apply_action_select_sets_selection_and_requests_write() {
    let mut store = HistoryStore::new();
    store.ingest_at(String::from("text"), 1);
    let mut selected: Option<u64> = None;
    let w = apply_action(&mut store, &mut selected, Action::Select(1, String::from("text")));
    assert_eq!(w, Some(String::from("text")));
    assert_eq!(selected, Some(1));
    let w = apply_action(&mut store, &mut selected, Action::Copy(String::from("other")));
    assert_eq!(w, Some(String::from("other")));
    let w = apply_action(&mut store, &mut selected, Action::ToggleFavorite(1));
    assert_eq!(w, None);
    assert!(store.entries()[0].favorite);
    let w = apply_action(&mut store, &mut selected, Action::Delete(1));
    assert_eq!(w, None);
    assert_eq!(store.len(), 0);
}

#[test]
fn apply_actions_runs_in_order_and_collects_writes() {
    let mut store = HistoryStore::new();
    store.ingest_at(String::from("a"), 1);
    store.ingest_at(String::from("b"), 2);
    let mut selected: Option<u64> = None;
    let actions = vec![
        Action::ToggleFavorite(1),
        Action::ToggleFavorite(1),
        Action::Select(2, String::from("b")),
        Action::Delete(1),
        Action::Copy(String::from("x")),
    ];
    let writes = apply_actions(&mut store, &mut selected, actions);
    assert_eq!(writes, vec![String::from("b"), String::from("x")]);
    assert_eq!(selected, Some(2));
    assert_eq!(store.len(), 1);
    assert_eq!(store.entries()[0].content, String::from("b"));
    assert!(!store.entries()[0].favorite);
}

#[test]
fn entry_new_at_sets_all_fields() {
    let e = ClipboardEntry::new_at(String::from("body"), 77);
    assert_eq!(e.id, 77);
    assert_eq!(e.timestamp, 77);
    assert_eq!(e.content, String::from("body"));
    assert!(!e.favorite);
}

#[test]
fn entry_new_uses_the_clock() {
    let e = ClipboardEntry::new(String::from("body"));
    assert_eq!(e.id, e.timestamp);
    assert!(!e.favorite);
    assert!(e.timestamp > 1_600_000_000);
}

#[test]
fn formatted_time_breaks_at_each_unit() {
    let e = ClipboardEntry::new_at(String::from("x"), 1000);
    assert_eq!(e.formatted_time_at(1000), String::from("0s ago"));
    assert_eq!(e.formatted_time_at(1059), String::from("59s ago"));
    assert_eq!(e.formatted_time_at(1060), String::from("1m ago"));
    assert_eq!(e.formatted_time_at(1000 + 3599), String::from("59m ago"));
    assert_eq!(e.formatted_time_at(1000 + 3600), String::from("1h ago"));
    assert_eq!(e.formatted_time_at(1000 + 86399), String::from("23h ago"));
    assert_eq!(e.formatted_time_at(1000 + 86400), String::from("1d ago"));
    assert_eq!(e.formatted_time_at(1000 + 86400 * 30), String::from("30d ago"));
    // A clock behind the capture reads as zero.
    assert_eq!(e.formatted_time_at(0), String::from("0s ago"));
}

#[test]
fn preview_truncates_long_content() {
    let short = String::from("short text");
    assert_eq!(preview(&short), short);
    let long: String = "x".repeat(60);
    let cut = preview(&long);
    assert_eq!(cut.chars().count(), 50);
    assert!(cut.ends_with("..."));
    assert!(cut.starts_with(&"x".repeat(47)));
}

#[test]
fn render_rows_builds_display_rows_for_filtered_entries() {
    let mut store = HistoryStore::new();
    store.ingest_at(String::from("alpha"), 100);
    store.ingest_at(String::from("beta"), 200);
    store.toggle_favorite(100);
    let rows = render_rows(&store, &String::from(""), true, Some(100), 260);
    assert_eq!(rows.len(), 1);
    assert_eq!(rows[0].id, 100);
    assert!(rows[0].is_favorite);
    assert!(rows[0].is_selected);
    assert_eq!(rows[0].display_text, String::from("alpha (2m ago)"));
}

#[test]
fn display_data_combines_preview_and_age() {
    let e = ClipboardEntry::new_at(String::from("hello"), 100);
    let d = e.display_data(Some(100), 130);
    assert_eq!(d.id, 100);
    assert!(d.is_selected);
    assert!(!d.is_favorite);
    assert_eq!(d.display_text, String::from("hello (30s ago)"));
    let d2 = e.display_data(Some(5), 130);
    assert!(!d2.is_selected);
    let d3 = e.display_data(None, 130);
    assert!(!d3.is_selected);
}
