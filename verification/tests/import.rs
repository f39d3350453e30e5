use std::path::PathBuf;

use reference_tool::commands::import_bib_content;
use reference_tool::models::{PersistedState, STATE_VERSION};
use reference_tool::state::AppState;
use reference_tool::storage::{check_state_version, state_text_is_blank, Storage};

fn fresh_state() -> AppState {
    AppState::from_storage(Storage::new(PathBuf::from("/nonexistent/import.json")), PersistedState::default())
}

#[test]
fn import_bib_content_imports_parsed_entries() {
    let mut state = fresh_state();
    let r = import_bib_content(&mut state, "refs.bib", "@ARTICLE{a1, title={One}} @misc{b2, title={Two}}")
        .expect("two entries should import");
    assert_eq!((r.total, r.imported, r.new_count, r.overwritten_count, r.failed), (2, 2, 2, 0, 0));
    assert_eq!(state.snapshot().imported_keys, vec!["a1", "b2"]);

    let again = import_bib_content(&mut state, "refs.bib", "@misc{b2, title={Two again}}").unwrap();
    assert_eq!((again.new_count, again.overwritten_count), (0, 1));
    assert_eq!(again.message, "Import finished: 1 processed (0 new, 1 overwritten).");
}

#[test]
fn import_bib_content_reports_parse_errors_and_changes_nothing() {
    let mut state = fresh_state();
    import_bib_content(&mut state, "ok.bib", "@misc{k, title={T}}").unwrap();
    let err = import_bib_content(&mut state, "bad.bib", "@ARTICLE{k1, title={x}").unwrap_err();
    assert_eq!(err, "Failed to parse bib file 'bad.bib': Unclosed entry delimiter at byte 8");
    assert_eq!(state.snapshot().imported_keys, vec!["k"]);
}

#[test]
fn import_bib_content_rejects_text_without_entries() {
    let mut state = fresh_state();
    let err = import_bib_content(&mut state, "empty.bib", "@comment{nothing here}").unwrap_err();
    assert_eq!(err, "No valid BibTeX entries found in file 'empty.bib'");
    assert_eq!(state.snapshot().total_entries, 0);
}

#[test]
fn blank_state_text_is_recognised() {
    assert!(state_text_is_blank(""));
    assert!(state_text_is_blank(" \n\t "));
    assert!(!state_text_is_blank(" {} "));
}

#[test]
fn only_the_current_state_version_is_accepted() {
    assert_eq!(check_state_version(STATE_VERSION), Ok(()));
    assert_eq!(check_state_version(999), Err(999));
}

#[test]
fn storage_reports_its_path() {
    let storage = Storage::new(PathBuf::from("/data/app/library_state.json"));
    assert_eq!(storage.path(), std::path::Path::new("/data/app/library_state.json"));
    let state = AppState::from_storage(storage, PersistedState::default());
    assert_eq!(state.storage_path(), "/data/app/library_state.json");
}
