use reference_tool::formatter::{alphanumeric_flags, initials_with};
use reference_tool::formatter::{format_entry, DefaultFormatterV1, OutputFormat, ReferenceFormatter};
use reference_tool::models::LibraryEntry;
use reference_tool::strmap::StrMap;

fn build_entry(entry_type: &str, fields: &[(&str, &str)]) -> LibraryEntry {
    let mut field_map = StrMap::new();
    for (key, value) in fields {
        field_map.insert((*key).to_string(), (*value).to_string());
    }

    LibraryEntry {
        key: "test-key".to_string(),
        entry_type: entry_type.to_string(),
        fields: field_map,
        raw: None,
    }
}

#[test]
fn formats_article_in_default_style() {
    let entry = build_entry(
        "ARTICLE",
        &[
            (
                "author",
                "Liu, Xin and Yu, Yingfeng and Li, Feng and Durrani, Tariq S.",
            ),
            (
                "title",
                "{Throughput Maximization for RIS-UAV Relaying Communications}",
            ),
            (
                "journal",
                "IEEE Transactions on Intelligent Transportation Systems",
            ),
            ("year", "2022"),
            ("volume", "23"),
            ("number", "10"),
            ("pages", "19569-19574"),
            ("doi", "10.1109/TITS.2022.3161698"),
        ],
    );

    let formatted = format_entry(&entry, OutputFormat::DefaultV1);
    assert_eq!(
        formatted,
        "Liu X, Yu Y, Li F, Durrani T S. Throughput Maximization for RIS-UAV Relaying Communications[J]. IEEE Transactions on Intelligent Transportation Systems, 2022, 23(10): 19569-19574. DOI: 10.1109/TITS.2022.3161698."
    );
}

#[test]
fn falls_back_to_eb_ol_marker_for_url_entries() {
    let entry = build_entry(
        "MISC",
        &[
            ("title", "城市轨道交通运营数据速报"),
            ("year", "2024"),
            ("url", "http://example.test/report"),
        ],
    );

    let formatted = DefaultFormatterV1.format_entry(&entry);
    assert!(formatted.contains("城市轨道交通运营数据速报[EB/OL]."));
    assert!(formatted.contains("2024."));
    assert!(formatted.contains("http://example.test/report."));
}

#[test]
fn keeps_chinese_authors_without_initial_reordering() {
    let entry = build_entry(
        "STANDARD",
        &[
            ("author", "交通运输部"),
            ("title", "城市轨道交通运营数据速报"),
            ("year", "2024"),
        ],
    );

    let formatted = format_entry(&entry, OutputFormat::DefaultV1);
    assert!(formatted.starts_with("交通运输部. 城市轨道交通运营数据速报[S]."));
}

#[test]
fn falls_back_to_key_when_title_is_missing() {
    let entry = LibraryEntry {
        key: "9750059".to_string(),
        entry_type: "ARTICLE".to_string(),
        fields: StrMap::new(),
        raw: None,
    };

    let formatted = format_entry(&entry, OutputFormat::DefaultV1);
    assert!(formatted.starts_with("9750059[J]."));
}

#[test]
fn formats_every_marker() {
    let cases = [
        ("article", "J"),
        ("InProceedings", "C"),
        ("conference", "C"),
        ("proceedings", "C"),
        ("book", "M"),
        ("standard", "S"),
        ("patent", "P"),
        ("thesis", "D"),
        ("phdthesis", "D"),
        ("mastersthesis", "D"),
        ("report", "R"),
        ("techreport", "R"),
        ("misc", "Z"),
    ];
    for (kind, marker) in cases {
        let entry = build_entry(kind, &[("title", "T")]);
        assert_eq!(format_entry(&entry, OutputFormat::DefaultV1), format!("T[{marker}]."));
    }
}

#[test]
fn publication_segment_combinations() {
    let entry = build_entry("BOOK", &[("title", "T"), ("publisher", "P"), ("number", "4"), ("pages", "1-2")]);
    assert_eq!(format_entry(&entry, OutputFormat::DefaultV1), "T[M]. P, (4): 1-2.");
    let entry = build_entry("BOOK", &[("title", "T"), ("volume", "3"), ("year", "1999")]);
    assert_eq!(format_entry(&entry, OutputFormat::DefaultV1), "T[M]. 1999, 3.");
    let entry = build_entry("BOOK", &[("title", "T"), ("pages", "7.")]);
    assert_eq!(format_entry(&entry, OutputFormat::DefaultV1), "T[M]. 7.");
}

#[test]
fn authors_plain_names_editors_and_blank_title() {
    let entry = build_entry(
        "ARTICLE",
        &[("editor", "Jean-Paul  van Dam and {Ada} and ,x"), ("title", "{ }"), ("url", " u ")],
    );
    assert_eq!(
        format_entry(&entry, OutputFormat::DefaultV1),
        "Dam J P V, Ada,  X. test-key[J]. u."
    );
}

#[test]
fn initials_follow_the_alphanumeric_flags() {
    let seg: Vec<char> = "j.-r x".chars().collect();
    let flags = alphanumeric_flags(&seg);
    assert_eq!(flags, vec![true, false, false, true, false, true]);
    assert_eq!(initials_with(&seg, &flags), vec!['J', ' ', 'R', ' ', 'X']);
    let no_x = vec![true, false, false, true, false, false];
    assert_eq!(initials_with(&seg, &no_x), vec!['J', ' ', 'R']);
}
