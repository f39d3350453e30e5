use reference_tool::citation_engine::{
    compress_citation_indexes, extract_latex_cite_commands, format_range, parse_citation_keys,
};

#[test]
fn compresses_empty_input_to_empty_string() {
    assert_eq!(compress_citation_indexes(&[]), "");
}

#[test]
fn compresses_single_range() {
    assert_eq!(compress_citation_indexes(&[1, 2, 3]), "[1]-[3]");
}

#[test]
fn compresses_multiple_ranges() {
    assert_eq!(compress_citation_indexes(&[1, 2, 3, 5]), "[1]-[3], [5]");
}

#[test]
fn sorts_and_deduplicates_before_compression() {
    assert_eq!(
        compress_citation_indexes(&[5, 3, 2, 2, 1, 8, 7, 6]),
        "[1]-[3], [5]-[8]"
    );
}

#[test]
fn keeps_separated_indexes() {
    assert_eq!(compress_citation_indexes(&[1, 3, 6]), "[1], [3], [6]");
}

#[test]
fn compression_depends_only_on_the_set_of_indexes() {
    assert_eq!(
        compress_citation_indexes(&[9, 10, 4, 4, 9]),
        compress_citation_indexes(&[4, 9, 10])
    );
    assert_eq!(compress_citation_indexes(&[9, 10, 4, 4, 9]), "[4], [9]-[10]");
}

#[test]
fn compresses_large_numbers() {
    assert_eq!(compress_citation_indexes(&[usize::MAX, usize::MAX - 1]), format!("[{}]-[{}]", usize::MAX - 1, usize::MAX));
    assert_eq!(format_range(7, 7), "[7]");
    assert_eq!(format_range(7, 12), "[7]-[12]");
}

#[test]
fn parses_keys_separated_by_commas_and_whitespace() {
    assert_eq!(parse_citation_keys("k2,k3,k1"), vec!["k2", "k3", "k1"]);
    assert_eq!(parse_citation_keys(" a ,\nb\u{FF0C}c\t c "), vec!["a", "b", "c", "c"]);
    assert!(parse_citation_keys("  , \n\u{FF0C}\t").is_empty());
}

#[test]
fn finds_cite_commands_with_their_keys() {
    let text = "x\\cite{a, b} y \\cite{} z \\cite{c";
    let commands = extract_latex_cite_commands(text);
    assert_eq!(commands.len(), 2);
    assert_eq!(commands[0].start, 1);
    assert_eq!(commands[0].end, 12);
    assert_eq!(commands[0].keys, vec!["a", "b"]);
    assert_eq!(commands[1].start, 15);
    assert_eq!(commands[1].end, 22);
    assert!(commands[1].keys.is_empty());
}
