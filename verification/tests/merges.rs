use rust_tokenizers::merges::{parse_pair, BpePair, BpePairVocab};

fn pair(a: &str, b: &str) -> BpePair {
    BpePair { byte_1: a.to_string(), byte_2: b.to_string() }
}

#[test]
fn ranks_follow_the_lines_after_the_header() {
    let table = BpePairVocab::from_text("#version: 0.2\nt h\nth e\ni n\n");
    assert_eq!(table.pair_to_id("t", "h"), Some(&0));
    assert_eq!(table.pair_to_id("th", "e"), Some(&1));
    assert_eq!(table.pair_to_id("i", "n"), Some(&2));
    assert_eq!(table.byte_pair_to_id(&pair("th", "e")), Some(&1));
}

#[test]
fn absent_pairs_have_no_rank() {
    let table = BpePairVocab::from_text("header\na b\n");
    assert_eq!(table.pair_to_id("b", "a"), None);
    assert_eq!(table.pair_to_id("a", "c"), None);
    assert_eq!(table.pair_to_id("c", "b"), None);
    assert_eq!(table.pair_to_id("", ""), None);
    assert_eq!(table.byte_pair_to_id(&pair("a", "")), None);
}

#[test]
fn the_header_line_is_skipped() {
    let table = BpePairVocab::from_text("a b\nc d");
    assert_eq!(table.pair_to_id("a", "b"), None);
    assert_eq!(table.pair_to_id("c", "d"), Some(&0));
    assert_eq!(BpePairVocab::from_text("a b").pair_to_id("a", "b"), None);
    assert_eq!(BpePairVocab::from_text("").pair_to_id("a", "b"), None);
}

#[test]
fn lines_without_a_pair_take_no_rank() {
    let table = BpePairVocab::from_text("h\na b\n\nsingle\n   \nc d\n");
    assert_eq!(table.pair_to_id("a", "b"), Some(&0));
    assert_eq!(table.pair_to_id("c", "d"), Some(&1));
}

#[test]
fn a_repeated_pair_keeps_its_first_rank() {
    let table = BpePairVocab::from_text("h\na b\nc d\na b\ne f\n");
    assert_eq!(table.pair_to_id("a", "b"), Some(&0));
    assert_eq!(table.pair_to_id("c", "d"), Some(&1));
    assert_eq!(table.pair_to_id("e", "f"), Some(&3));
}

#[test]
fn symbols_are_separated_by_whitespace() {
    let table = BpePairVocab::from_text(
        "h\n  a b  \r\n\tc d e\nx  y\n\u{3000}p q\u{a0}\nm\tn\nu \t\u{2003} v\n",
    );
    assert_eq!(table.pair_to_id("a", "b"), Some(&0));
    assert_eq!(table.pair_to_id("c", "d"), Some(&1));
    assert_eq!(table.pair_to_id("x", "y"), Some(&2));
    assert_eq!(table.pair_to_id("x", ""), None);
    assert_eq!(table.pair_to_id("p", "q"), Some(&3));
    assert_eq!(table.pair_to_id("m", "n"), Some(&4));
    assert_eq!(table.pair_to_id("u", "v"), Some(&5));
    assert_eq!(table.len(), 6);
}

#[test]
fn a_tab_separates_symbols() {
    let table = BpePairVocab::from_text("#h\na\tb\n");
    assert_eq!(table.pair_to_id("a", "b"), Some(&0));
    assert_eq!(table.len(), 1);
}

#[test]
fn the_table_counts_its_pairs() {
    assert_eq!(BpePairVocab::new().len(), 0);
    assert_eq!(BpePairVocab::from_text("h\na b\nc d\na b\na c\n").len(), 3);
    assert_eq!(BpePairVocab::from_text("h\n").len(), 0);
}

#[test]
fn a_table_is_built_from_pairs_with_ranks() {
    let table = BpePairVocab::new()
        .with_rank(pair("a", "b"), 7)
        .with_rank(pair("a", "c"), -2)
        .with_rank(pair("b", "a"), 7);
    assert_eq!(table.len(), 3);
    assert_eq!(table.pair_to_id("a", "b"), Some(&7));
    assert_eq!(table.pair_to_id("a", "c"), Some(&-2));
    assert_eq!(table.pair_to_id("b", "a"), Some(&7));
    assert_eq!(table.pair_to_id("c", "a"), None);
    let table = table.with_rank(pair("a", "b"), 1);
    assert_eq!(table.len(), 3);
    assert_eq!(table.pair_to_id("a", "b"), Some(&1));
    assert_eq!(table.byte_pair_to_id(&pair("a", "c")), Some(&-2));
}

#[test]
fn pairs_share_symbols() {
    let table = BpePairVocab::from_text("h\na b\na c\nb a\nb c\n");
    assert_eq!(table.pair_to_id("a", "b"), Some(&0));
    assert_eq!(table.pair_to_id("a", "c"), Some(&1));
    assert_eq!(table.pair_to_id("b", "a"), Some(&2));
    assert_eq!(table.pair_to_id("b", "c"), Some(&3));
    assert_eq!(table.pair_to_id("c", "a"), None);
}

#[test]
fn a_line_yields_its_first_two_pieces() {
    let line: Vec<char> = "xx a\u{e9} b c \n".chars().collect();
    let found = parse_pair(&line, 3, line.len()).unwrap();
    assert_eq!(found.byte_1, "a\u{e9}");
    assert_eq!(found.byte_2, "b");
    assert!(parse_pair(&line, 0, 2).is_none());
    assert!(parse_pair(&line, 2, 2).is_none());
    let found = parse_pair(&line, 0, 4).unwrap();
    assert_eq!((found.byte_1.as_str(), found.byte_2.as_str()), ("xx", "a"));
    let line: Vec<char> = "\tleft \u{a0}\t right  more".chars().collect();
    assert_eq!(parse_pair(&line, 0, line.len()), Some(pair("left", "right")));
    assert_eq!(parse_pair(&line, 0, 6), None);
}

#[test]
fn the_new_table_is_empty() {
    assert_eq!(BpePairVocab::new().pair_to_id("a", "b"), None);
}
