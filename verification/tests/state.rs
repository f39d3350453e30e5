use std::path::PathBuf;

use reference_tool::bib_parser::parse_bib_entries;
use reference_tool::models::{LibraryEntry, PersistedState};
use reference_tool::state::AppState;
use reference_tool::storage::Storage;
use reference_tool::strmap::StrMap;

fn unique_state_path(test_name: &str) -> PathBuf {
    PathBuf::from(format!("/nonexistent/reference-tool-state-{test_name}.json"))
}

fn build_entry(key: &str, title: &str) -> LibraryEntry {
    let mut fields = StrMap::new();
    fields.insert("title".to_string(), title.to_string());

    LibraryEntry {
        key: key.to_string(),
        entry_type: "ARTICLE".to_string(),
        fields,
        raw: None,
    }
}

fn strings(v: &[&str]) -> Vec<String> {
    v.iter().map(|s| s.to_string()).collect()
}

#[test]
fn import_entries_tracks_new_and_overwritten_counts() {
    let path = unique_state_path("import-count");
    let storage = Storage::new(path.clone());

    let mut persisted = PersistedState::default();
    persisted
        .entries
        .insert("k1".to_string(), build_entry("k1", "old"));

    let mut app_state = AppState::from_storage(storage, persisted);

    let result =
        app_state.import_entries(vec![build_entry("k1", "new"), build_entry("k2", "another")]);

    assert_eq!(result.total, 2);
    assert_eq!(result.imported, 2);
    assert_eq!(result.new_count, 1);
    assert_eq!(result.overwritten_count, 1);
    assert_eq!(result.failed, 0);

    let k1_title = app_state
        .persisted()
        .entries
        .get(&"k1".to_string())
        .and_then(|entry| entry.fields.get(&"title".to_string()))
        .expect("k1 title should exist");
    assert_eq!(k1_title, "new");
}

#[test]
fn cite_keys_reuses_existing_and_assigns_new_indexes() {
    let path = unique_state_path("cite-indexes");
    let storage = Storage::new(path.clone());

    let mut persisted = PersistedState::default();
    persisted
        .entries
        .insert("k1".to_string(), build_entry("k1", "Reference A"));
    persisted
        .entries
        .insert("k2".to_string(), build_entry("k2", "Reference B"));
    persisted
        .entries
        .insert("k3".to_string(), build_entry("k3", "Reference C"));
    persisted.citation_order = strings(&["k1", "k2"]);

    let mut app_state = AppState::from_storage(storage, persisted);

    let result = app_state
        .cite_keys("k2,k3,k1")
        .expect("cite should resolve indexes");

    assert_eq!(result.citation_text, "[1]-[3]");
    assert_eq!(result.newly_added_count, 1);
    assert_eq!(app_state.persisted().citation_order, strings(&["k1", "k2", "k3"]));
    assert!(result
        .cited_references_text
        .contains("[1]  Reference A[J]."));
    assert!(result
        .cited_references_text
        .contains("[3]  Reference C[J]."));
}

#[test]
fn cite_keys_is_transactional_on_missing_key() {
    let path = unique_state_path("cite-missing");
    let storage = Storage::new(path.clone());

    let mut persisted = PersistedState::default();
    persisted
        .entries
        .insert("k1".to_string(), build_entry("k1", "Reference A"));
    persisted.citation_order = strings(&["k1"]);

    let mut app_state = AppState::from_storage(storage, persisted);
    let before_order = app_state.persisted().citation_order.clone();

    let error = app_state
        .cite_keys("k1,missing-key")
        .expect_err("missing key should fail transaction");

    assert!(error.contains("Missing citation key(s): missing-key"));
    assert_eq!(app_state.persisted().citation_order, before_order);
}

#[test]
fn cite_keys_rejects_empty_input() {
    let path = unique_state_path("cite-empty");
    let storage = Storage::new(path.clone());
    let mut app_state = AppState::from_storage(storage, PersistedState::default());

    let error = app_state
        .cite_keys("  , \n，\t")
        .expect_err("empty input should fail");
    assert_eq!(
        error,
        "Citation input is empty. Please provide at least one key."
    );
}

#[test]
fn cite_keys_keeps_non_consecutive_indexes_separated() {
    let path = unique_state_path("cite-range");
    let storage = Storage::new(path.clone());

    let mut persisted = PersistedState::default();
    persisted
        .entries
        .insert("k1".to_string(), build_entry("k1", "Reference A"));
    persisted
        .entries
        .insert("k2".to_string(), build_entry("k2", "Reference B"));
    persisted
        .entries
        .insert("k3".to_string(), build_entry("k3", "Reference C"));
    persisted.citation_order = strings(&["k1", "k2", "k3"]);

    let mut app_state = AppState::from_storage(storage, persisted);

    let result = app_state
        .cite_keys("k1, k3")
        .expect("cite should return non-consecutive indexes");

    assert_eq!(result.citation_text, "[1], [3]");
    assert_eq!(result.newly_added_count, 0);
}

#[test]
fn clear_citations_resets_numbering_to_one() {
    let path = unique_state_path("clear-citations");
    let storage = Storage::new(path.clone());

    let mut persisted = PersistedState::default();
    persisted.citation_start_index = 10;
    persisted
        .entries
        .insert("k1".to_string(), build_entry("k1", "Reference A"));
    persisted.citation_order = strings(&["k1"]);
    persisted.citation_index_by_key.insert("k1".to_string(), 10);
    persisted.next_citation_index = 11;

    let mut app_state = AppState::from_storage(storage, persisted);
    app_state.clear_citations();

    let result = app_state
        .cite_keys("k1")
        .expect("citation after clear should use reset index");

    assert_eq!(result.citation_text, "[1]");
    assert_eq!(result.newly_added_count, 1);
}

#[test]
fn set_next_citation_index_allows_non_empty_when_greater_than_max() {
    let path = unique_state_path("set-next-guard");
    let storage = Storage::new(path.clone());

    let mut persisted = PersistedState::default();
    persisted
        .entries
        .insert("k1".to_string(), build_entry("k1", "Reference A"));
    persisted
        .entries
        .insert("k2".to_string(), build_entry("k2", "Reference B"));
    persisted.citation_order = strings(&["k1"]);
    persisted.citation_index_by_key.insert("k1".to_string(), 10);
    persisted.next_citation_index = 11;

    let mut app_state = AppState::from_storage(storage, persisted);

    app_state
        .set_next_citation_index(Some(16))
        .expect("setting next index should work with existing citations");

    let cite_result = app_state
        .cite_keys("k2")
        .expect("new citation should follow configured next index");
    assert_eq!(cite_result.citation_text, "[16]");
}

#[test]
fn set_next_citation_index_rejects_value_not_greater_than_max() {
    let path = unique_state_path("set-next-reject");
    let storage = Storage::new(path.clone());

    let mut persisted = PersistedState::default();
    persisted
        .entries
        .insert("k1".to_string(), build_entry("k1", "Reference A"));
    persisted.citation_order = strings(&["k1"]);
    persisted.citation_index_by_key.insert("k1".to_string(), 10);
    persisted.next_citation_index = 11;

    let mut app_state = AppState::from_storage(storage, persisted);

    let error = app_state
        .set_next_citation_index(Some(10))
        .expect_err("should reject when next index is not greater than current max");
    assert!(error.contains("must be greater than current maximum index"));
}

#[test]
fn set_next_citation_index_empty_value_uses_max_plus_one() {
    let path = unique_state_path("set-next-auto");
    let storage = Storage::new(path.clone());

    let mut persisted = PersistedState::default();
    persisted
        .entries
        .insert("k1".to_string(), build_entry("k1", "Reference A"));
    persisted.citation_order = strings(&["k1"]);
    persisted.citation_index_by_key.insert("k1".to_string(), 10);
    persisted.next_citation_index = 30;

    let mut app_state = AppState::from_storage(storage, persisted);
    app_state
        .set_next_citation_index(None)
        .expect("auto next should be applied");

    assert_eq!(app_state.next_citation_index(), 11);
}

#[test]
fn set_next_citation_index_applies_to_first_new_citation() {
    let path = unique_state_path("set-next-apply");
    let storage = Storage::new(path.clone());

    let mut persisted = PersistedState::default();
    persisted
        .entries
        .insert("k1".to_string(), build_entry("k1", "Reference A"));
    let mut app_state = AppState::from_storage(storage, persisted);

    app_state
        .set_next_citation_index(Some(25))
        .expect("set next citation index should succeed");

    let result = app_state
        .cite_keys("k1")
        .expect("citation should use configured next index");

    assert_eq!(result.citation_text, "[25]");
}

#[test]
fn clear_library_removes_entries_and_citations() {
    let path = unique_state_path("clear-library");
    let storage = Storage::new(path.clone());

    let mut persisted = PersistedState::default();
    persisted
        .entries
        .insert("k1".to_string(), build_entry("k1", "Reference A"));
    persisted.citation_order = strings(&["k1"]);
    persisted.citation_index_by_key.insert("k1".to_string(), 3);
    persisted.next_citation_index = 4;

    let mut app_state = AppState::from_storage(storage, persisted);
    app_state.clear_library();

    assert!(app_state.persisted().entries.is_empty());
    assert!(app_state.persisted().citation_order.is_empty());
    assert!(app_state.persisted().citation_index_by_key.is_empty());
    assert_eq!(app_state.persisted().next_citation_index, 1);
}

#[test]
fn find_entry_by_key_returns_title_and_authors() {
    let path = unique_state_path("lookup-entry");
    let storage = Storage::new(path.clone());

    let mut persisted = PersistedState::default();
    let mut fields = StrMap::new();
    fields.insert(
        "title".to_string(),
        "{Throughput Maximization for RIS-UAV Relaying Communications}".to_string(),
    );
    fields.insert(
        "author".to_string(),
        "Liu, Xin and Yu, Yingfeng and Li, Feng".to_string(),
    );

    persisted.entries.insert(
        "9750059".to_string(),
        LibraryEntry {
            key: "9750059".to_string(),
            entry_type: "ARTICLE".to_string(),
            fields,
            raw: None,
        },
    );

    let app_state = AppState::from_storage(storage, persisted);
    let result = app_state
        .find_entry_by_key("9750059")
        .expect("entry should be found");

    assert_eq!(result.key, "9750059");
    assert_eq!(
        result.title,
        "Throughput Maximization for RIS-UAV Relaying Communications"
    );
    assert_eq!(result.authors, "Liu, Xin, Yu, Yingfeng, Li, Feng");
}

#[test]
fn find_entry_by_key_returns_none_for_missing_key() {
    let path = unique_state_path("lookup-missing");
    let storage = Storage::new(path.clone());

    let app_state = AppState::from_storage(storage, PersistedState::default());

    assert!(app_state.find_entry_by_key("missing").is_none());
}
