use rust_tokenizers::fold::fold_char;
use rust_tokenizers::input::Offset;
use rust_tokenizers::words::{
    chain_glyphs, fold_span, fold_stems, is_punctuation, pre_split, split_words, Folding, Glyph,
    Word,
};

const PLAIN: Folding = Folding { lower_case: false, strip_accents: false };
const LOWER: Folding = Folding { lower_case: true, strip_accents: false };
const STRIP: Folding = Folding { lower_case: false, strip_accents: true };
const BOTH: Folding = Folding { lower_case: true, strip_accents: true };

fn chars(text: &str) -> Vec<char> {
    text.chars().collect()
}

fn span(begin: usize, end: usize) -> Offset {
    Offset { begin, end }
}

fn glyph(ch: char, begin: usize, end: usize) -> Glyph {
    Glyph { ch, offset: span(begin, end) }
}

#[test]
fn punctuation_is_that_of_ascii() {
    let mut n: u32 = 0;
    while n <= 0x10FFFF {
        if let Some(c) = char::from_u32(n) {
            assert_eq!(is_punctuation(c), c.is_ascii_punctuation(), "U+{:04X}", n);
        }
        n += 1;
    }
}

#[test]
fn whitespace_separates_words() {
    assert_eq!(split_words(&chars("ab cd")), vec![span(0, 2), span(3, 5)]);
    assert_eq!(split_words(&chars("  ab \t\n cd  ")), vec![span(2, 4), span(8, 10)]);
    assert_eq!(split_words(&chars("")), vec![]);
    assert_eq!(split_words(&chars(" \u{3000} ")), vec![]);
    assert_eq!(split_words(&chars("x")), vec![span(0, 1)]);
}

#[test]
fn each_punctuation_character_is_a_word() {
    assert_eq!(
        split_words(&chars("y'all!")),
        vec![span(0, 1), span(1, 2), span(2, 5), span(5, 6)]
    );
    assert_eq!(split_words(&chars("?!")), vec![span(0, 1), span(1, 2)]);
    assert_eq!(split_words(&chars("a, b")), vec![span(0, 1), span(1, 2), span(3, 4)]);
}

#[test]
fn lower_casing_folds_characters() {
    assert_eq!(fold_char('A', true, false), vec!['a']);
    assert_eq!(fold_char('a', true, false), vec!['a']);
    assert_eq!(fold_char('\u{c9}', true, false), vec!['\u{e9}']);
    assert_eq!(fold_char('\u{130}', true, false), vec!['i', '\u{307}']);
    assert_eq!(fold_char('A', false, false), vec!['A']);
    assert_eq!(fold_char('7', true, true), vec!['7']);
}

#[test]
fn stripping_accents_folds_characters() {
    assert_eq!(fold_char('\u{e9}', false, true), vec!['e']);
    assert_eq!(fold_char('\u{c9}', false, true), vec!['E']);
    assert_eq!(fold_char('\u{c9}', true, true), vec!['e']);
    assert_eq!(fold_char('\u{130}', true, true), vec!['i']);
    assert_eq!(fold_char('\u{1ea5}', false, true), vec!['a']);
    assert_eq!(fold_char('\u{301}', false, true), vec![]);
    assert_eq!(fold_char('\u{301}', false, false), vec!['\u{301}']);
    assert_eq!(fold_char('\u{ac00}', false, true), vec!['\u{1100}', '\u{1161}']);
    assert_eq!(fold_char('\u{153}', true, true), vec!['\u{153}']);
}

#[test]
fn a_plain_word_has_one_glyph_for_each_character() {
    let text = chars("a Bc");
    let word = fold_span(&text, span(2, 4), PLAIN);
    assert_eq!(word, Word { glyphs: vec![glyph('B', 2, 3), glyph('c', 3, 4)], span: span(2, 4) });
    let word = fold_span(&text, span(2, 4), LOWER);
    assert_eq!(word.glyphs, vec![glyph('b', 2, 3), glyph('c', 3, 4)]);
}

#[test]
fn of_several_glyphs_from_one_character_the_last_has_its_span() {
    let text = chars("\u{130}s");
    let word = fold_span(&text, span(0, 2), LOWER);
    assert_eq!(word.glyphs, vec![glyph('i', 0, 0), glyph('\u{307}', 0, 1), glyph('s', 1, 2)]);
    let word = fold_span(&text, span(0, 2), BOTH);
    assert_eq!(word.glyphs, vec![glyph('i', 0, 1), glyph('s', 1, 2)]);
}

#[test]
fn a_character_that_folds_to_nothing_joins_its_neighbour() {
    let text = chars("e\u{301}a\u{300}");
    let word = fold_span(&text, span(0, 4), STRIP);
    assert_eq!(word.glyphs, vec![glyph('e', 0, 2), glyph('a', 2, 4)]);
    let text = chars("\u{301}a");
    let word = fold_span(&text, span(0, 2), STRIP);
    assert_eq!(word.glyphs, vec![glyph('a', 0, 2)]);
    let text = chars("\u{301}\u{302}");
    let word = fold_span(&text, span(0, 2), STRIP);
    assert_eq!(word, Word { glyphs: vec![], span: span(0, 2) });
}

#[test]
fn pre_splitting_folds_every_word() {
    let words = pre_split(&chars("H\u{e9}llo, W"), BOTH);
    assert_eq!(
        words,
        vec![
            Word {
                glyphs: vec![
                    glyph('h', 0, 1),
                    glyph('e', 1, 2),
                    glyph('l', 2, 3),
                    glyph('l', 3, 4),
                    glyph('o', 4, 5)
                ],
                span: span(0, 5)
            },
            Word { glyphs: vec![glyph(',', 5, 6)], span: span(5, 6) },
            Word { glyphs: vec![glyph('w', 7, 8)], span: span(7, 8) },
        ]
    );
    assert_eq!(pre_split(&chars(" \n"), BOTH), vec![]);
}

#[test]
fn folded_characters_keep_the_position_they_stem_from() {
    let text = chars("x \u{130}e\u{301}");
    assert_eq!(
        fold_stems(&text, span(2, 5), LOWER),
        vec![('i', 2), ('\u{307}', 2), ('e', 3), ('\u{301}', 4)]
    );
    assert_eq!(fold_stems(&text, span(2, 5), BOTH), vec![('i', 2), ('e', 3)]);
    assert_eq!(fold_stems(&text, span(2, 5), PLAIN), vec![('\u{130}', 2), ('e', 3), ('\u{301}', 4)]);
    assert_eq!(fold_stems(&text, span(1, 1), BOTH), vec![]);
}

#[test]
fn glyphs_are_chained_through_the_span() {
    let tags = vec![('a', 4), ('b', 4), ('c', 7)];
    assert_eq!(
        chain_glyphs(&tags, span(3, 9)),
        vec![glyph('a', 3, 4), glyph('b', 4, 7), glyph('c', 7, 9)]
    );
    assert_eq!(chain_glyphs(&vec![('a', 5)], span(3, 9)), vec![glyph('a', 3, 9)]);
    assert_eq!(chain_glyphs(&vec![], span(3, 9)), vec![]);
}
