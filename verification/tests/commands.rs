use reference_tool::commands::{accept_bib_extension, ensure_bib_extension, ensure_non_empty_entries};

#[test]
fn accepts_bib_extension_case_insensitive() {
    assert!(ensure_bib_extension("/tmp/ref.bib").is_ok());
    assert!(ensure_bib_extension("/tmp/ref.BIB").is_ok());
}

#[test]
fn rejects_non_bib_extension() {
    assert!(ensure_bib_extension("/tmp/ref.txt").is_err());
    assert!(ensure_bib_extension("/tmp/ref").is_err());
}

#[test]
fn rejects_empty_parsed_entry_set() {
    let result = ensure_non_empty_entries(0, "/tmp/empty.bib");
    assert!(result
        .expect_err("empty entry set should fail")
        .contains("No valid BibTeX entries found"));
}

#[test]
fn accepts_non_empty_parsed_entry_set() {
    assert!(ensure_non_empty_entries(1, "/tmp/data.bib").is_ok());
}

#[test]
fn extension_follows_path_rules() {
    assert!(ensure_bib_extension("refs.Bib").is_ok());
    assert!(ensure_bib_extension("dir/refs.bib/").is_ok());
    assert!(ensure_bib_extension("dir/refs.bib/.").is_ok());
    assert!(ensure_bib_extension("a..bib").is_ok());
    assert!(ensure_bib_extension("/tmp/.bib").is_err());
    assert!(ensure_bib_extension("/tmp/refs.bib/..").is_err());
    assert!(ensure_bib_extension("/").is_err());
    assert!(ensure_bib_extension("").is_err());
    assert!(ensure_bib_extension("refs.bibx").is_err());
    assert_eq!(
        ensure_bib_extension("x.txt").unwrap_err(),
        "Only .bib files are supported for import"
    );
}

#[test]
fn empty_entry_error_names_the_file() {
    assert_eq!(
        ensure_non_empty_entries(0, "/tmp/e.bib").unwrap_err(),
        "No valid BibTeX entries found in file '/tmp/e.bib'"
    );
}

#[test]
fn accepts_only_the_bib_extension() {
    assert!(accept_bib_extension(&Some("bib".to_string())).is_ok());
    assert!(accept_bib_extension(&Some("BiB".to_string())).is_ok());
    assert_eq!(
        accept_bib_extension(&Some("bibx".to_string())).unwrap_err(),
        "Only .bib files are supported for import"
    );
    assert!(accept_bib_extension(&Some(String::new())).is_err());
    assert!(accept_bib_extension(&None).is_err());
}

#[test]
fn extension_is_taken_from_the_last_component() {
    assert!(ensure_bib_extension("dir.bib/notes.txt").is_err());
    assert!(ensure_bib_extension("dir.x/refs.bib").is_ok());
}
