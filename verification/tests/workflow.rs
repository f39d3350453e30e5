use std::path::PathBuf;

use reference_tool::bib_parser::parse_bib_entries;
use reference_tool::models::PersistedState;
use reference_tool::state::{numbering_fits, AppState};
use reference_tool::storage::Storage;
use reference_tool::strmap::StrMap;

const SAMPLE_BIB: &str = r#"
@ARTICLE{10495806,
  author={Huang, Yong and Li, Ming and Yu, F. Richard and Si, Peng and Zhang, Hu and Qiao, Jia},
  journal={IEEE Transactions on Cognitive Communications and Networking},
  title={Resources Scheduling for Ambient Backscatter Communication-Based Intelligent IIoT: A Collective Deep Reinforcement Learning Method},
  year={2024},
  volume={10},
  number={2},
  pages={634-648},
  doi={10.1109/TCCN.2024.1234567}
}

@ARTICLE{10648348,
  author={Wang, Xin and Liu, Li and Tang, Tao and Sun, Wei},
  journal={IEEE Transactions on Intelligent Transportation Systems},
  title={Enhancing Communication-Based Train Control Systems Through Train-to-Train Communications},
  year={2019},
  volume={20},
  number={4},
  pages={1544-1561}
}
"#;

fn fresh_state() -> AppState {
    AppState::from_storage(Storage::new(PathBuf::from("/nonexistent/state.json")), PersistedState::default())
}

#[test]
fn import_and_cite_in_one_session() {
    let mut state = fresh_state();
    let entries = parse_bib_entries(SAMPLE_BIB).expect("sample bib should parse");
    let import = state.import_entries(entries);
    assert_eq!(import.total, 2);
    assert_eq!(import.new_count, 2);
    assert_eq!(import.overwritten_count, 0);
    assert_eq!(import.message, "Import finished: 2 processed (2 new, 0 overwritten).");

    let cite = state.cite_keys("10648348,10495806").expect("cite should resolve imported keys");
    assert_eq!(cite.citation_text, "[1]-[2]");
    assert_eq!(cite.newly_added_count, 2);
    assert!(cite.cited_references_text.contains("[1]  Wang X, Liu L"));
    assert!(cite.cited_references_text.contains("[2]  Huang Y, Li M"));
    assert_eq!(
        cite.cited_references_text,
        "[1]  Wang X, Liu L, Tang T, Sun W. Enhancing Communication-Based Train Control Systems Through Train-to-Train Communications[J]. IEEE Transactions on Intelligent Transportation Systems, 2019, 20(4): 1544-1561.\n\n[2]  Huang Y, Li M, Yu F R, Si P, Zhang H, Qiao J. Resources Scheduling for Ambient Backscatter Communication-Based Intelligent IIoT: A Collective Deep Reinforcement Learning Method[J]. IEEE Transactions on Cognitive Communications and Networking, 2024, 10(2): 634-648. DOI: 10.1109/TCCN.2024.1234567."
    );

    let snapshot = state.snapshot();
    assert_eq!(snapshot.total_entries, 2);
    assert_eq!(snapshot.imported_keys, vec!["10495806", "10648348"]);
    assert_eq!(snapshot.citation_order, vec!["10648348", "10495806"]);

    let again = state.cite_keys("10495806").expect("existing citation key should resolve");
    assert_eq!(again.citation_text, "[2]");
    assert_eq!(again.newly_added_count, 0);
}

#[test]
fn failed_cite_leaves_state_unchanged() {
    let mut state = fresh_state();
    state.import_entries(parse_bib_entries("@ARTICLE{9750059, title={T}}").unwrap());
    state.cite_keys("9750059").unwrap();
    let next_before = state.next_citation_index();
    let err = state.cite_keys("9750059,missing-key,missing-key,other").unwrap_err();
    assert_eq!(err, "Missing citation key(s): missing-key, other");
    assert_eq!(state.persisted().citation_order, vec!["9750059".to_string()]);
    assert_eq!(state.next_citation_index(), next_before);
}

#[test]
fn paragraph_citations_are_replaced_in_place() {
    let mut state = fresh_state();
    state.import_entries(
        parse_bib_entries("@a{x, title={X}} @a{y, title={Y}} @a{z, title={Z}}").unwrap(),
    );
    let r = state.cite_keys("See \\cite{z} and \\cite{x,y,z}.").unwrap();
    assert_eq!(r.citation_text, "See [1] and [1]-[3].");
    assert_eq!(r.newly_added_count, 3);
    let err = state.cite_keys("Empty \\cite{} here").unwrap_err();
    assert_eq!(err, "Found empty \\cite{} command. Please provide at least one key.");
    let err = state.cite_keys("Missing \\cite{q}").unwrap_err();
    assert_eq!(err, "Missing citation key(s): q");
}

#[test]
fn loaded_state_is_repaired() {
    let mut persisted = PersistedState::default();
    persisted.citation_order = vec!["a".into(), "b".into(), "a".into()];
    persisted.citation_start_index = 0;
    persisted.next_citation_index = 0;
    let state = AppState::from_storage(Storage::new(PathBuf::from("/x")), persisted);
    let p = state.persisted();
    assert_eq!(p.citation_order, vec!["a".to_string(), "b".to_string()]);
    assert_eq!(p.citation_index_by_key.get(&"a".to_string()), Some(&1));
    assert_eq!(p.citation_index_by_key.get(&"b".to_string()), Some(&2));
    assert_eq!(p.next_citation_index, 3);
    assert_eq!(p.citation_start_index, 1);
    // References to entries that are not in the library are listed as missing.
    assert_eq!(
        state.cited_references_text(),
        "[1]  [Missing entry for key: a]\n\n[2]  [Missing entry for key: b]"
    );
}

#[test]
fn repair_drops_numbers_of_uncited_keys_and_numbers_new_ones() {
    let mut persisted = PersistedState::default();
    persisted.citation_order = vec!["a".into(), "c".into()];
    let mut index = StrMap::new();
    index.insert("a".to_string(), 7usize);
    index.insert("b".to_string(), 9usize);
    persisted.citation_index_by_key = index;
    persisted.next_citation_index = 2;
    let state = AppState::from_storage(Storage::new(PathBuf::from("/x")), persisted);
    let p = state.persisted();
    assert_eq!(p.citation_index_by_key.len(), 2);
    assert_eq!(p.citation_index_by_key.get(&"a".to_string()), Some(&7));
    assert_eq!(p.citation_index_by_key.get(&"c".to_string()), Some(&8));
    assert_eq!(p.next_citation_index, 9);
}

#[test]
fn lookup_trims_key_and_falls_back() {
    let mut state = fresh_state();
    state.import_entries(parse_bib_entries("@misc{k1, editor={A and B}}").unwrap());
    let r = state.find_entry_by_key("  k1 ").unwrap();
    assert_eq!(r.title, "k1");
    assert_eq!(r.authors, "A, B");
    assert!(state.find_entry_by_key("   ").is_none());
    state.import_entries(parse_bib_entries("@misc{k2, title={x}}").unwrap());
    assert_eq!(state.find_entry_by_key("k2").unwrap().authors, "未知作者");
}

#[test]
fn set_next_index_without_value_on_empty_state_is_one() {
    let mut state = fresh_state();
    state.set_next_citation_index(None).unwrap();
    assert_eq!(state.next_citation_index(), 1);
    assert_eq!(
        state.set_next_citation_index(Some(0)).unwrap_err(),
        "Next citation index must be >= 1"
    );
}

#[test]
fn rejection_message_names_the_maximum() {
    let mut state = fresh_state();
    state.import_entries(parse_bib_entries("@a{x, title={X}}").unwrap());
    state.cite_keys("x").unwrap();
    assert_eq!(
        state.set_next_citation_index(Some(1)).unwrap_err(),
        "Next citation index must be greater than current maximum index [1]"
    );
}

#[test]
fn import_counts_repeated_keys_in_one_batch_as_overwrites() {
    let mut state = fresh_state();
    let r = state.import_entries(parse_bib_entries("@a{x, title={1}} @a{x, title={2}}").unwrap());
    assert_eq!((r.total, r.imported, r.new_count, r.overwritten_count, r.failed), (2, 2, 1, 1, 0));
    assert_eq!(state.snapshot().total_entries, 1);
}

#[test]
fn numbering_fits_detects_an_overflowing_start_number() {
    let mut p = PersistedState::default();
    assert!(numbering_fits(&p));
    p.citation_order = vec!["a".into(), "b".into()];
    p.citation_start_index = usize::MAX;
    assert!(!numbering_fits(&p));
    p.citation_order = vec!["a".into(), "a".into()];
    assert!(numbering_fits(&p));
}

#[test]
fn repairing_a_repaired_state_changes_nothing() {
    let mut persisted = PersistedState::default();
    persisted.citation_order = vec!["b".into(), "a".into(), "b".into()];
    persisted.citation_start_index = 4;
    let first = AppState::from_storage(Storage::new(PathBuf::from("/x")), persisted);
    let p = first.persisted();
    let mut copy = PersistedState::default();
    copy.citation_order = p.citation_order.clone();
    let mut index = StrMap::new();
    for key in p.citation_index_by_key.key_list() {
        index.insert(key.clone(), *p.citation_index_by_key.get(&key).unwrap());
    }
    copy.citation_index_by_key = index;
    copy.next_citation_index = p.next_citation_index;
    copy.citation_start_index = p.citation_start_index;
    let second = AppState::from_storage(Storage::new(PathBuf::from("/x")), copy);
    let q = second.persisted();
    assert_eq!(q.citation_order, vec!["b".to_string(), "a".to_string()]);
    assert_eq!(q.citation_index_by_key.get(&"b".to_string()), Some(&4));
    assert_eq!(q.citation_index_by_key.get(&"a".to_string()), Some(&5));
    assert_eq!(q.next_citation_index, p.next_citation_index);
    assert_eq!(q.next_citation_index, 6);
    assert_eq!(q.citation_start_index, 4);
}

#[test]
fn repeating_a_citation_changes_nothing() {
    let mut state = fresh_state();
    state.import_entries(parse_bib_entries("@a{x, title={X}} @a{y, title={Y}} @a{z, title={Z}}").unwrap());
    state.cite_keys("z").unwrap();
    let first = state.cite_keys("See \\cite{x,z} and \\cite{y}.").unwrap();
    let order_before = state.persisted().citation_order.clone();
    let next_before = state.next_citation_index();
    let second = state.cite_keys("See \\cite{x,z} and \\cite{y}.").unwrap();
    assert_eq!(first.citation_text, "See [1]-[2] and [3].");
    assert_eq!(second.citation_text, first.citation_text);
    assert_eq!(second.newly_added_count, 0);
    assert_eq!(second.cited_references_text, first.cited_references_text);
    assert_eq!(state.persisted().citation_order, order_before);
    assert_eq!(state.next_citation_index(), next_before);
}

#[test]
fn repair_numbers_new_keys_in_order_above_kept_ones() {
    let mut persisted = PersistedState::default();
    persisted.citation_order = vec!["n1".into(), "k".into(), "n2".into()];
    let mut index = StrMap::new();
    index.insert("k".to_string(), 5usize);
    persisted.citation_index_by_key = index;
    persisted.citation_start_index = 2;
    let state = AppState::from_storage(Storage::new(PathBuf::from("/x")), persisted);
    let p = state.persisted();
    assert_eq!(p.citation_index_by_key.get(&"k".to_string()), Some(&5));
    assert_eq!(p.citation_index_by_key.get(&"n1".to_string()), Some(&6));
    assert_eq!(p.citation_index_by_key.get(&"n2".to_string()), Some(&7));
    assert_eq!(p.next_citation_index, 8);
}
