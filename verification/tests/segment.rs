use rust_tokenizers::bpe::{bpe, merge_symbols, Symbol};
use rust_tokenizers::input::{Offset, Token};
use rust_tokenizers::merges::BpePairVocab;
use rust_tokenizers::vocab::CtrlVocab;
use rust_tokenizers::wordpiece::wordpiece;
use rust_tokenizers::words::{fold_span, Folding, Word};

const PLAIN: Folding = Folding { lower_case: false, strip_accents: false };

fn vocab(list: &[(&str, i64)]) -> CtrlVocab {
    CtrlVocab::from_entries(list.iter().map(|(t, id)| (t.to_string(), *id)).collect()).unwrap()
}

fn word(text: &str, begin: usize) -> Word {
    let mut chars: Vec<char> = vec![' '; begin];
    chars.extend(text.chars());
    let end = chars.len();
    fold_span(&chars, Offset { begin, end }, PLAIN)
}

fn token(id: i64, begin: usize, end: usize) -> Token {
    Token { id, offset: Offset { begin, end } }
}

fn symbols(text: &str) -> Vec<Symbol> {
    text.chars()
        .enumerate()
        .map(|(i, c)| Symbol { text: c.to_string(), offset: Offset { begin: i, end: i + 1 } })
        .collect()
}

fn texts(symbols: &[Symbol]) -> Vec<(&str, usize, usize)> {
    symbols.iter().map(|s| (s.text.as_str(), s.offset.begin, s.offset.end)).collect()
}

#[test]
fn a_word_falls_into_the_pieces_of_the_vocabulary() {
    let v = vocab(&[("<unk>", 0), ("un", 1), ("##aff", 2), ("##able", 3)]);
    assert_eq!(
        wordpiece(&v, "##", &word("unaffable", 0)),
        vec![token(1, 0, 2), token(2, 2, 5), token(3, 5, 9)]
    );
    assert_eq!(
        wordpiece(&v, "##", &word("unaffable", 10)),
        vec![token(1, 10, 12), token(2, 12, 15), token(3, 15, 19)]
    );
}

#[test]
fn the_longest_piece_is_taken() {
    let v = vocab(&[("<unk>", 0), ("a", 1), ("ab", 2), ("abc", 3), ("##c", 4), ("##d", 5), ("##cd", 6)]);
    assert_eq!(wordpiece(&v, "##", &word("abc", 0)), vec![token(3, 0, 3)]);
    assert_eq!(wordpiece(&v, "##", &word("abcd", 0)), vec![token(3, 0, 3), token(5, 3, 4)]);
    assert_eq!(wordpiece(&v, "##", &word("abd", 0)), vec![token(2, 0, 2), token(5, 2, 3)]);
}

#[test]
fn a_word_that_does_not_fall_into_pieces_is_unknown_as_a_whole() {
    let v = vocab(&[("<unk>", 7), ("un", 1), ("##aff", 2), ("able", 3)]);
    assert_eq!(wordpiece(&v, "##", &word("unaffable", 4)), vec![token(7, 4, 13)]);
    assert_eq!(wordpiece(&v, "##", &word("xyz", 0)), vec![token(7, 0, 3)]);
    assert_eq!(wordpiece(&v, "##", &word("unx", 0)), vec![token(7, 0, 3)]);
}

#[test]
fn the_first_piece_is_looked_up_without_the_marker() {
    let v = vocab(&[("<unk>", 0), ("##ab", 1), ("ab", 2), ("@@ab", 3)]);
    assert_eq!(wordpiece(&v, "##", &word("abab", 0)), vec![token(2, 0, 2), token(1, 2, 4)]);
    assert_eq!(wordpiece(&v, "@@", &word("abab", 0)), vec![token(2, 0, 2), token(3, 2, 4)]);
    assert_eq!(wordpiece(&v, "", &word("abab", 0)), vec![token(2, 0, 2), token(2, 2, 4)]);
}

#[test]
fn a_word_without_glyphs_is_unknown() {
    let v = vocab(&[("<unk>", 9), ("", 1)]);
    let empty = Word { glyphs: vec![], span: Offset { begin: 3, end: 5 } };
    assert_eq!(wordpiece(&v, "##", &empty), vec![token(9, 3, 5)]);
    let table = BpePairVocab::from_text("h\n");
    assert_eq!(bpe(&v, &table, &empty), vec![token(9, 3, 5)]);
}

#[test]
fn pairs_merge_by_rank() {
    let table = BpePairVocab::from_text("h\nl o\nlo w\ne r\n");
    let merged = merge_symbols(&table, symbols("lower"));
    assert_eq!(texts(&merged), vec![("low", 0, 3), ("er", 3, 5)]);
    let table = BpePairVocab::from_text("h\ne r\nlo w\nl o\n");
    let merged = merge_symbols(&table, symbols("lower"));
    assert_eq!(texts(&merged), vec![("low", 0, 3), ("er", 3, 5)]);
    let table = BpePairVocab::from_text("h\no w\nl o\n");
    let merged = merge_symbols(&table, symbols("lower"));
    assert_eq!(texts(&merged), vec![("l", 0, 1), ("ow", 1, 3), ("e", 3, 4), ("r", 4, 5)]);
}

#[test]
fn of_equal_pairs_the_leftmost_merges_first() {
    let table = BpePairVocab::from_text("h\na a\n");
    let merged = merge_symbols(&table, symbols("aaa"));
    assert_eq!(texts(&merged), vec![("aa", 0, 2), ("a", 2, 3)]);
    let table = BpePairVocab::from_text("h\na a\naa a\n");
    let merged = merge_symbols(&table, symbols("aaaa"));
    assert_eq!(texts(&merged), vec![("aa", 0, 2), ("aa", 2, 4)]);
    let table = BpePairVocab::from_text("h\naa a\na a\n");
    let merged = merge_symbols(&table, symbols("aaaa"));
    assert_eq!(texts(&merged), vec![("aaa", 0, 3), ("a", 3, 4)]);
}

#[test]
fn without_ranked_pairs_nothing_merges() {
    let table = BpePairVocab::from_text("h\nx y\n");
    assert_eq!(texts(&merge_symbols(&table, symbols("abc"))), vec![("a", 0, 1), ("b", 1, 2), ("c", 2, 3)]);
    assert_eq!(texts(&merge_symbols(&table, symbols("a"))), vec![("a", 0, 1)]);
    assert_eq!(texts(&merge_symbols(&table, symbols(""))), vec![]);
    assert_eq!(texts(&merge_symbols(&table, symbols("xy"))), vec![("xy", 0, 2)]);
}

#[test]
fn merged_symbols_become_tokens() {
    let v = vocab(&[("<unk>", 0), ("low", 5), ("er", 6), ("l", 7)]);
    let table = BpePairVocab::from_text("h\nl o\nlo w\ne r\n");
    assert_eq!(bpe(&v, &table, &word("lower", 2)), vec![token(5, 2, 5), token(6, 5, 7)]);
    assert_eq!(
        bpe(&v, &table, &word("slow", 0)),
        vec![token(0, 0, 1), token(5, 1, 4)]
    );
    assert_eq!(bpe(&v, &table, &word("l", 0)), vec![token(7, 0, 1)]);
}
