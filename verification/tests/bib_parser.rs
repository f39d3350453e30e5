use reference_tool::bib_parser::parse_bib_entries;

fn field<'a>(entry: &'a reference_tool::models::LibraryEntry, name: &str) -> Option<&'a str> {
    entry.fields.get(&name.to_string()).map(String::as_str)
}

#[test]
fn parses_single_article_entry() {
    let input = r#"@ARTICLE{9750059,
  author={Liu, Xin and Yu, Yingfeng and Li, Feng and Durrani, Tariq S.},
  journal={IEEE Transactions on Intelligent Transportation Systems},
  title={{Throughput Maximization for RIS-UAV Relaying Communications}},
  year={2022},
  volume={23},
  number={10},
  pages={19569-19574},
  doi={10.1109/TITS.2022.3161698}
}"#;

    let entries = parse_bib_entries(input).expect("single entry should parse");
    assert_eq!(entries.len(), 1);

    let entry = &entries[0];
    assert_eq!(entry.key, "9750059");
    assert_eq!(entry.entry_type, "ARTICLE");
    assert_eq!(field(entry, "year"), Some("2022"));
    assert_eq!(field(entry, "doi"), Some("10.1109/TITS.2022.3161698"));
}

#[test]
fn parses_multiple_entries_and_skips_special_types() {
    let input = r#"
@comment{ignored entry}
@ARTICLE{a1, title={A Title}, year={2024}}
@STRING{abbr = "IEEE"}
@INPROCEEDINGS{b2, title={B Title}, year={2023}}
"#;

    let entries = parse_bib_entries(input).expect("entries should parse");

    assert_eq!(entries.len(), 2);
    assert_eq!(entries[0].key, "a1");
    assert_eq!(entries[1].key, "b2");
    assert_eq!(entries[1].entry_type, "INPROCEEDINGS");
}

#[test]
fn handles_nested_braces_and_commas_in_values() {
    let input = r#"@ARTICLE{n1,
  title={A {Very, Very} Specific Title},
  note={Line one,
  line two}
}"#;

    let entries = parse_bib_entries(input).expect("entry should parse");
    let entry = &entries[0];

    assert_eq!(field(entry, "title"), Some("A {Very, Very} Specific Title"));
    assert_eq!(field(entry, "note"), Some("Line one, line two"));
}

#[test]
fn returns_error_for_unclosed_entry() {
    let input = "@ARTICLE{missing_end, title={oops}";

    let error = parse_bib_entries(input).expect_err("parser should return an error");
    assert!(error.to_text().contains("Unclosed entry delimiter"));
}

#[test]
fn error_names_byte_position_of_the_opening_delimiter() {
    let error = parse_bib_entries("@ARTICLE{missing_end, title={oops}").unwrap_err();
    assert_eq!(error.message(), "Unclosed entry delimiter");
    assert_eq!(error.position(), Some(8));
    assert_eq!(error.to_text(), "Unclosed entry delimiter at byte 8");
}

#[test]
fn byte_positions_count_utf8_bytes() {
    // "é" takes two bytes, so the '{' after it is at byte 8, not 7.
    let error = parse_bib_entries("é@ARTICLE{k, title}").unwrap_err();
    assert_eq!(error.message(), "Expected '=' after field name");
    assert_eq!(error.position(), Some(19));
    let error = parse_bib_entries("é @  {x}").unwrap_err();
    assert_eq!(error.message(), "Missing entry type");
    assert_eq!(error.position(), Some(6));
}

#[test]
fn reports_each_kind_of_error() {
    let cases: Vec<(&str, &str)> = vec![
        ("@", "Missing entry type"),
        ("@ARTICLE", "Missing opening delimiter after entry type"),
        ("@ARTICLE[x]", "Entry body must start with '{' or '('"),
        ("@ARTICLE{ , title={x}}", "Missing citation key in entry"),
        ("@ARTICLE{k, ti,tle={x}}", "Unexpected ',' while parsing field name"),
        ("@ARTICLE{k, =x}", "Empty field name in entry"),
        ("@ARTICLE{k, title x}", "Expected '=' after field name"),
        ("@ARTICLE{k, title=   }", "Missing field value after '='"),
        ("@ARTICLE(k, title={x)", "Unclosed braced field value"),
        ("@ARTICLE{k, t={\"}, u=\"x}}", "Unclosed quoted field value"),
        ("@ARTICLE{k, title=,}", "Bare field value is empty"),
    ];
    for (input, message) in cases {
        let error = parse_bib_entries(input).expect_err(input);
        assert_eq!(error.message(), message, "input {input}");
    }
}

#[test]
fn parses_quoted_bare_and_parenthesised_entries() {
    let input = "@misc(k9, Title = \"Say \\\"hi\\\"  there\", YEAR = 2020 ,)";
    let entries = parse_bib_entries(input).unwrap();
    assert_eq!(entries.len(), 1);
    let e = &entries[0];
    assert_eq!(e.key, "k9");
    assert_eq!(e.entry_type, "MISC");
    assert_eq!(field(e, "title"), Some("Say \\\"hi\\\" there"));
    assert_eq!(field(e, "year"), Some("2020"));
    assert_eq!(e.raw.as_deref(), Some("k9, Title = \"Say \\\"hi\\\"  there\", YEAR = 2020 ,"));
}

#[test]
fn later_field_with_same_name_wins() {
    let entries = parse_bib_entries("@article{k, Title={one}, title={two}}").unwrap();
    assert_eq!(field(&entries[0], "title"), Some("two"));
    assert_eq!(entries[0].fields.len(), 1);
}

#[test]
fn text_without_entries_parses_to_nothing() {
    assert!(parse_bib_entries("").unwrap().is_empty());
    assert!(parse_bib_entries("no entries here").unwrap().is_empty());
}

#[test]
fn parsed_entries_have_upper_case_types_and_lower_case_field_names() {
    let entries = parse_bib_entries("@inProceedings{ key-1 , Title = {A}, YEAR = 2020 }").unwrap();
    assert_eq!(entries.len(), 1);
    let e = &entries[0];
    assert_eq!(e.key, "key-1");
    assert_eq!(e.entry_type, "INPROCEEDINGS");
    assert_eq!(e.fields.key_list(), vec!["title".to_string(), "year".to_string()]);
    assert!(e.raw.is_some());
}
