//! Segmentation of a word by merging pairs of symbols, the pair of the
//! lowest rank first.

use crate::input::{fill, token_spans, Offset, Token};
use crate::merges::{BpePairVocab, SymbolPair};
use crate::vocab::{CtrlVocab, VocabView};
use crate::wordpiece::unknown_word;
use crate::words::{chained, glyph_chars, glyph_spans, Glyph, Word, WordView};
use vstd::prelude::*;
use vstd::string::StringExecFns;

verus! {

/// A symbol as the contracts see it.
pub struct SymbolView {
    pub text: Seq<char>,
    pub offset: Offset,
}

/// A symbol: a string of the folded text with the span of the source text
/// for which it stands.
#[derive(Debug, PartialEq, Eq)]
pub struct Symbol {
    pub text: String,
    pub offset: Offset,
}

impl View for Symbol {
    type V = SymbolView;

    open spec fn view(&self) -> SymbolView {
        SymbolView { text: self.text@, offset: self.offset }
    }
}

/// The symbols of `symbols` as the contracts see them.
pub open spec fn symbol_views(symbols: Seq<Symbol>) -> Seq<SymbolView> {
    Seq::new(symbols.len(), |k: int| symbols[k]@)
}

/// The pair of neighbours that begins at `i`.
pub open spec fn pair_at(symbols: Seq<SymbolView>, i: int) -> SymbolPair {
    (symbols[i].text, symbols[i + 1].text)
}

/// The place of the pair to merge among the first `n` pairs of neighbours:
/// the one of the lowest rank, the leftmost of several; nothing where none
/// of them has a rank.
pub open spec fn best_pair(ranks: Map<SymbolPair, i64>, symbols: Seq<SymbolView>, n: int) -> Option<
    int,
>
    decreases n,
{
    if n <= 0 {
        None
    } else {
        let earlier = best_pair(ranks, symbols, n - 1);
        let pair = pair_at(symbols, n - 1);
        if ranks.contains_key(pair) && (match earlier {
            Some(b) => ranks[pair] < ranks[pair_at(symbols, b)],
            None => true,
        }) {
            Some(n - 1)
        } else {
            earlier
        }
    }
}

/// The symbol made of the neighbours at `i`: their strings one after the
/// other, over the span from the begin of the left to the end of the right.
pub open spec fn joined(symbols: Seq<SymbolView>, i: int) -> SymbolView {
    SymbolView {
        text: symbols[i].text + symbols[i + 1].text,
        offset: Offset { begin: symbols[i].offset.begin, end: symbols[i + 1].offset.end },
    }
}

/// The symbols with the neighbours at `i` merged into one.
pub open spec fn merged(symbols: Seq<SymbolView>, i: int) -> Seq<SymbolView> {
    symbols.take(i).push(joined(symbols, i)) + symbols.skip(i + 2)
}

/// The symbols after every merge: as long as a pair of neighbours has a
/// rank, the best pair is merged.
pub open spec fn merge_all(ranks: Map<SymbolPair, i64>, symbols: Seq<SymbolView>) -> Seq<SymbolView>
    decreases symbols.len(),
{
    match best_pair(ranks, symbols, symbols.len() - 1) {
        Some(i) => if 0 <= i < symbols.len() - 1 {
            merge_all(ranks, merged(symbols, i))
        } else {
            symbols
        },
        None => symbols,
    }
}

/// The pair that `best_pair` gives has a rank that no pair undercuts and
/// that no pair to its left equals; it gives nothing only where no pair
/// has a rank.
pub proof fn lemma_best_pair(ranks: Map<SymbolPair, i64>, symbols: Seq<SymbolView>, n: int)
    ensures
        match best_pair(ranks, symbols, n) {
            Some(i) => {
                &&& 0 <= i < n
                &&& ranks.contains_key(pair_at(symbols, i))
                &&& forall|j: int|
                    0 <= j < n && ranks.contains_key(#[trigger] pair_at(symbols, j))
                        ==> ranks[pair_at(symbols, i)] < ranks[pair_at(symbols, j)] || (ranks[pair_at(
                        symbols,
                        i,
                    )] == ranks[pair_at(symbols, j)] && i <= j)
            },
            None => forall|j: int| 0 <= j < n ==> !ranks.contains_key(#[trigger] pair_at(symbols, j)),
        },
    decreases n,
{
    if n > 0 {
        lemma_best_pair(ranks, symbols, n - 1);
    }
}

/// The symbol of one glyph: its character, over its span.
pub open spec fn glyph_symbol(glyph: Glyph) -> SymbolView {
    SymbolView { text: seq![glyph.ch], offset: glyph.offset }
}

/// The symbols with which the merging of a word begins: one for each of
/// its glyphs.
pub open spec fn glyph_symbols(glyphs: Seq<Glyph>) -> Seq<SymbolView> {
    Seq::new(glyphs.len(), |j: int| glyph_symbol(glyphs[j]))
}

/// The token of a symbol: the id to which its string resolves, over its
/// span.
pub open spec fn symbol_token(vocab: VocabView, symbol: SymbolView) -> Token {
    Token { id: vocab.token_id(symbol.text), offset: symbol.offset }
}

/// The tokens of a word: those of the symbols that are left when nothing
/// more can be merged; or the unknown token over the whole word, where the
/// word has no glyphs.
pub open spec fn word_merges(vocab: VocabView, ranks: Map<SymbolPair, i64>, word: WordView) -> Seq<
    Token,
> {
    if word.glyphs.len() == 0 {
        unknown_word(vocab, word.span)
    } else {
        let symbols = merge_all(ranks, glyph_symbols(word.glyphs));
        Seq::new(symbols.len(), |k: int| symbol_token(vocab, symbols[k]))
    }
}

/// Looks for the pair of neighbours to merge.
fn find_best(table: &BpePairVocab, symbols: &Vec<Symbol>) -> (best: Option<usize>)
    ensures
        match best {
            Some(i) => best_pair(table@, symbol_views(symbols@), symbols.len() - 1) == Some(
                i as int,
            ) && i + 1 < symbols.len(),
            None => best_pair(table@, symbol_views(symbols@), symbols.len() - 1) is None,
        },
{
    let ghost views = symbol_views(symbols@);
    let mut best: Option<usize> = None;
    let mut lowest: i64 = 0;
    let mut i: usize = 0;
    while i + 1 < symbols.len()
        invariant
            i <= symbols.len(),
            symbols.len() == 0 ==> i == 0,
            i > 0 ==> i < symbols.len(),
            views == symbol_views(symbols@),
            match best {
                Some(b) => best_pair(table@, views, i as int) == Some(b as int) && b < i
                    && table@.contains_key(pair_at(views, b as int)) && lowest == table@[pair_at(
                    views,
                    b as int,
                )],
                None => best_pair(table@, views, i as int) is None,
            },
        decreases symbols.len() - i,
    {
        match table.pair_to_id(symbols[i].text.as_str(), symbols[i + 1].text.as_str()) {
            Some(rank) => {
                if best.is_none() || *rank < lowest {
                    best = Some(i);
                    lowest = *rank;
                }
            },
            None => {},
        }
        i += 1;
    }
    best
}

/// Merges pairs of neighbours, the best pair first, until no pair of
/// neighbours has a rank.
pub fn merge_symbols(table: &BpePairVocab, symbols: Vec<Symbol>) -> (merged_symbols: Vec<Symbol>)
    ensures
        symbol_views(merged_symbols@) == merge_all(table@, symbol_views(symbols@)),
{
    let mut symbols = symbols;
    let ghost start = symbol_views(symbols@);
    let mut next = find_best(table, &symbols);
    while next.is_some()
        invariant
            merge_all(table@, start) == merge_all(table@, symbol_views(symbols@)),
            match next {
                Some(i) => best_pair(table@, symbol_views(symbols@), symbols.len() - 1) == Some(
                    i as int,
                ) && i + 1 < symbols.len(),
                None => best_pair(table@, symbol_views(symbols@), symbols.len() - 1) is None,
            },
        decreases symbols.len(),
    {
        let i = next.unwrap();
        let ghost before = symbol_views(symbols@);
        let left = symbols.remove(i);
        let right = symbols.remove(i);
        let mut text = left.text;
        text.append(right.text.as_str());
        let symbol = Symbol {
            text,
            offset: Offset { begin: left.offset.begin, end: right.offset.end },
        };
        symbols.insert(i, symbol);
        assert(symbol_views(symbols@) =~= merged(before, i as int));
        next = find_best(table, &symbols);
    }
    symbols
}

/// Segments `word` by merging: each glyph is a symbol, pairs of symbols
/// are merged by rank, and each symbol that is left becomes a token, the
/// unknown token where the vocabulary does not hold it.
pub fn bpe(vocab: &CtrlVocab, table: &BpePairVocab, word: &Word) -> (tokens: Vec<Token>)
    ensures
        tokens@ == word_merges(vocab@, table@, word@),
{
    let mut tokens: Vec<Token> = Vec::new();
    let n = word.glyphs.len();
    if n == 0 {
        tokens.push(Token { id: vocab.unknown_id(), offset: word.span });
        return tokens;
    }
    let mut symbols: Vec<Symbol> = Vec::new();
    let mut j: usize = 0;
    while j < n
        invariant
            j <= n == word.glyphs.len(),
            symbol_views(symbols@) == glyph_symbols(word.glyphs@).take(j as int),
        decreases n - j,
    {
        let mut text = String::new();
        text.push(word.glyphs[j].ch);
        let symbol = Symbol { text, offset: word.glyphs[j].offset };
        let ghost before = symbol_views(symbols@);
        symbols.push(symbol);
        assert(symbol_views(symbols@) =~= before.push(glyph_symbol(word.glyphs@[j as int])));
        j += 1;
    }
    assert(glyph_symbols(word.glyphs@).take(n as int) =~= glyph_symbols(word.glyphs@));
    let symbols = merge_symbols(table, symbols);
    let ghost views = symbol_views(symbols@);
    let mut k: usize = 0;
    while k < symbols.len()
        invariant
            k <= symbols.len(),
            views == symbol_views(symbols@),
            tokens@ == Seq::new(k as nat, |m: int| symbol_token(vocab@, views[m])),
        decreases symbols.len() - k,
    {
        let id = vocab.token_to_id(symbols[k].text.as_str());
        tokens.push(Token { id, offset: symbols[k].offset });
        k += 1;
    }
    tokens
}

/// The spans of `symbols`.
pub open spec fn symbol_spans(symbols: Seq<SymbolView>) -> Seq<Offset> {
    Seq::new(symbols.len(), |k: int| symbols[k].offset)
}

/// Symbols that fill a span still fill it after a merge.
pub proof fn lemma_merged_fill(symbols: Seq<SymbolView>, i: int, span: Offset)
    requires
        fill(symbol_spans(symbols), span),
        0 <= i < symbols.len() - 1,
    ensures
        fill(symbol_spans(merged(symbols, i)), span),
{
    let before = symbol_spans(symbols);
    let after = symbol_spans(merged(symbols, i));
    assert forall|k: int| 0 <= k < after.len() implies after[k] == if k < i {
        before[k]
    } else if k == i {
        Offset { begin: before[i].begin, end: before[i + 1].end }
    } else {
        before[k + 1]
    } by {}
}

/// Symbols that fill a span still fill it when nothing more can be merged.
pub proof fn lemma_merge_all_fill(
    ranks: Map<SymbolPair, i64>,
    symbols: Seq<SymbolView>,
    span: Offset,
)
    requires
        fill(symbol_spans(symbols), span),
    ensures
        fill(symbol_spans(merge_all(ranks, symbols)), span),
    decreases symbols.len(),
{
    if let Some(i) = best_pair(ranks, symbols, symbols.len() - 1) {
        if 0 <= i < symbols.len() - 1 {
            lemma_merged_fill(symbols, i, span);
            lemma_merge_all_fill(ranks, merged(symbols, i), span);
        }
    }
}

/// The tokens of a word lie one after the other and fill the span of the
/// word.
pub proof fn lemma_word_merges_fill(vocab: VocabView, ranks: Map<SymbolPair, i64>, word: WordView)
    requires
        chained(word),
    ensures
        fill(token_spans(word_merges(vocab, ranks, word)), word.span),
{
    let tokens = word_merges(vocab, ranks, word);
    if word.glyphs.len() > 0 {
        let start = glyph_symbols(word.glyphs);
        assert(symbol_spans(start) =~= glyph_spans(word.glyphs));
        lemma_merge_all_fill(ranks, start, word.span);
        assert(token_spans(tokens) =~= symbol_spans(merge_all(ranks, start)));
    }
}

/// When nothing more can be merged, no pair of neighbours has a rank.
pub proof fn lemma_merge_all_done(ranks: Map<SymbolPair, i64>, symbols: Seq<SymbolView>)
    ensures
        forall|j: int|
            0 <= j < merge_all(ranks, symbols).len() - 1 ==> !ranks.contains_key(
                #[trigger] pair_at(merge_all(ranks, symbols), j),
            ),
    decreases symbols.len(),
{
    lemma_best_pair(ranks, symbols, symbols.len() - 1);
    match best_pair(ranks, symbols, symbols.len() - 1) {
        Some(i) => {
            lemma_merge_all_done(ranks, merged(symbols, i));
            assert(merge_all(ranks, symbols) == merge_all(ranks, merged(symbols, i)));
        },
        None => {
            assert(merge_all(ranks, symbols) == symbols);
        },
    }
}

/// The strings of `symbols`, one after the other.
pub open spec fn joined_text(symbols: Seq<SymbolView>) -> Seq<char>
    decreases symbols.len(),
{
    if symbols.len() == 0 {
        Seq::empty()
    } else {
        joined_text(symbols.drop_last()) + symbols.last().text
    }
}

/// The string of one symbol alone is its own.
pub proof fn lemma_joined_text_one(symbol: SymbolView)
    ensures
        joined_text(seq![symbol]) == symbol.text,
{
    assert(seq![symbol].drop_last() == Seq::<SymbolView>::empty());
    assert(joined_text(Seq::<SymbolView>::empty()) == Seq::<char>::empty());
    assert(joined_text(seq![symbol]) =~= symbol.text);
}

/// The strings of two lists of symbols, one after the other, are those of
/// the first list followed by those of the second.
pub proof fn lemma_joined_text_concat(a: Seq<SymbolView>, b: Seq<SymbolView>)
    ensures
        joined_text(a + b) == joined_text(a) + joined_text(b),
    decreases b.len(),
{
    if b.len() == 0 {
        assert(a + b == a);
    } else {
        lemma_joined_text_concat(a, b.drop_last());
        assert((a + b).drop_last() == a + b.drop_last());
    }
}

/// Merging changes how a text is cut into symbols, never the text: the
/// strings of the symbols, one after the other, stay the same.
pub proof fn lemma_merge_all_keeps_text(ranks: Map<SymbolPair, i64>, symbols: Seq<SymbolView>)
    ensures
        joined_text(merge_all(ranks, symbols)) == joined_text(symbols),
    decreases symbols.len(),
{
    if let Some(i) = best_pair(ranks, symbols, symbols.len() - 1) {
        if 0 <= i < symbols.len() - 1 {
            let left = symbols.take(i);
            let pair = seq![symbols[i], symbols[i + 1]];
            let right = symbols.skip(i + 2);
            assert(symbols == left + pair + right);
            assert(merged(symbols, i) == left + seq![joined(symbols, i)] + right);
            lemma_joined_text_concat(left, pair);
            lemma_joined_text_concat(left + pair, right);
            lemma_joined_text_concat(left, seq![joined(symbols, i)]);
            lemma_joined_text_concat(left + seq![joined(symbols, i)], right);
            assert(joined_text(pair) == joined_text(seq![joined(symbols, i)])) by {
                assert(pair.drop_last() == seq![symbols[i]]);
                lemma_joined_text_one(symbols[i]);
                lemma_joined_text_one(joined(symbols, i));
            }
            lemma_merge_all_keeps_text(ranks, merged(symbols, i));
        }
    }
}

/// The symbols of a word, one after the other, spell the characters of
/// its glyphs, before any merge and after all of them.
pub proof fn lemma_word_merges_text(ranks: Map<SymbolPair, i64>, glyphs: Seq<Glyph>)
    ensures
        joined_text(glyph_symbols(glyphs)) == glyph_chars(glyphs),
        joined_text(merge_all(ranks, glyph_symbols(glyphs))) == glyph_chars(glyphs),
    decreases glyphs.len(),
{
    if glyphs.len() > 0 {
        lemma_word_merges_text(ranks, glyphs.drop_last());
        assert(glyph_symbols(glyphs).drop_last() == glyph_symbols(glyphs.drop_last()));
        assert(glyph_chars(glyphs) == glyph_chars(glyphs.drop_last()) + seq![glyphs.last().ch]);
    } else {
        assert(glyph_chars(glyphs) == Seq::<char>::empty());
    }
    lemma_merge_all_keeps_text(ranks, glyph_symbols(glyphs));
}

} // verus!
