//! The tokenizer: from a text, or a pair of texts, to the input of a model.

use crate::assemble::{assemble, assembled, outcome_view, Template};
use crate::bpe::{bpe, lemma_word_merges_fill, word_merges};
use crate::input::{
    covered, fill, inside, lemma_fill, token_spans, InputView, Offset, Token, TokenizedInput,
};
use crate::merges::{BpePairVocab, SymbolPair};
use crate::text::{chars_of, whitespace};
use crate::truncation::{TruncationError, TruncationStrategy};
use crate::vocab::{CtrlVocab, VocabView};
use crate::wordpiece::{lemma_word_pieces_fill, word_pieces, wordpiece};
use crate::words::{
    lemma_spans_upto, lemma_word_chained, pre_split, spans, word_of, words_of, Folding, Word,
    WordView,
};
use vstd::prelude::*;

verus! {

/// How the words of a text are segmented into tokens.
pub enum Segmenter<'a> {
    /// Into the longest pieces of the vocabulary; a piece after the first
    /// of a word is looked up behind `continuation`.
    WordPiece { continuation: &'a str },
    /// By merging the pairs of symbols that `merges` ranks.
    PairMerging { merges: &'a BpePairVocab },
}

/// A way of segmenting as the contracts see it.
pub enum SegmenterView {
    WordPiece { continuation: Seq<char> },
    PairMerging { ranks: Map<SymbolPair, i64> },
}

impl<'a> View for Segmenter<'a> {
    type V = SegmenterView;

    open spec fn view(&self) -> SegmenterView {
        match *self {
            Segmenter::WordPiece { continuation } => SegmenterView::WordPiece {
                continuation: continuation@,
            },
            Segmenter::PairMerging { merges } => SegmenterView::PairMerging { ranks: merges@ },
        }
    }
}

/// A tokenizer as the contracts see it.
pub struct TokenizerView {
    pub vocab: VocabView,
    pub segmenter: SegmenterView,
    pub folding: Folding,
    pub template: Template,
}

/// A tokenizer: a vocabulary, a way of segmenting words, the foldings that
/// the characters undergo, and the structural tokens of an input. It
/// borrows its tables, which many tokenizers may share.
pub struct Tokenizer<'a> {
    pub vocab: &'a CtrlVocab,
    pub segmenter: Segmenter<'a>,
    pub folding: Folding,
    pub template: Template,
}

impl<'a> View for Tokenizer<'a> {
    type V = TokenizerView;

    open spec fn view(&self) -> TokenizerView {
        TokenizerView {
            vocab: self.vocab@,
            segmenter: self.segmenter@,
            folding: self.folding,
            template: self.template,
        }
    }
}

/// The tokens of one word.
pub open spec fn word_tokens(tokenizer: TokenizerView, word: WordView) -> Seq<Token> {
    match tokenizer.segmenter {
        SegmenterView::WordPiece { continuation } => word_pieces(
            tokenizer.vocab,
            continuation,
            word,
        ),
        SegmenterView::PairMerging { ranks } => word_merges(tokenizer.vocab, ranks, word),
    }
}

/// The tokens of the first `n` words, in the order of the words.
pub open spec fn tokens_upto(tokenizer: TokenizerView, words: Seq<WordView>, n: int) -> Seq<Token>
    decreases n,
{
    if n <= 0 {
        Seq::empty()
    } else {
        tokens_upto(tokenizer, words, n - 1) + word_tokens(tokenizer, words[n - 1])
    }
}

/// The tokens of `text`, in reading order.
pub open spec fn tokenized(tokenizer: TokenizerView, text: Seq<char>) -> Seq<Token> {
    let words = words_of(text, tokenizer.folding);
    tokens_upto(tokenizer, words, words.len() as int)
}

/// The tokens of an optional text.
pub open spec fn tokenized_pair(tokenizer: TokenizerView, pair: Option<Seq<char>>) -> Option<
    Seq<Token>,
> {
    match pair {
        Some(text) => Some(tokenized(tokenizer, text)),
        None => None,
    }
}

/// The input of a model for `text`, or for `text` and `pair`.
pub open spec fn encoded(
    tokenizer: TokenizerView,
    text: Seq<char>,
    pair: Option<Seq<char>>,
    max_length: nat,
    strategy: TruncationStrategy,
    stride: nat,
) -> Result<InputView, TruncationError> {
    assembled(
        tokenized(tokenizer, text),
        tokenized_pair(tokenizer, pair),
        tokenizer.template,
        max_length,
        strategy,
        stride,
    )
}

/// An optional text as the contracts see it.
pub open spec fn text_of(pair: Option<String>) -> Option<Seq<char>> {
    match pair {
        Some(text) => Some(text@),
        None => None,
    }
}

impl<'a> Tokenizer<'a> {
    /// Segments one word.
    pub fn segment(&self, word: &Word) -> (tokens: Vec<Token>)
        ensures
            tokens@ == word_tokens(self@, word@),
    {
        match self.segmenter {
            Segmenter::WordPiece { continuation } => wordpiece(self.vocab, continuation, word),
            Segmenter::PairMerging { merges } => bpe(self.vocab, merges, word),
        }
    }

    /// The tokens of `text`, in reading order.
    pub fn tokenize(&self, text: &str) -> (tokens: Vec<Token>)
        ensures
            tokens@ == tokenized(self@, text@),
            offsets_cover(tokens@, text@),
    {
        let chars = chars_of(text);
        proof {
            lemma_offsets_cover(self@, text@);
        }
        let words = pre_split(&chars, self.folding);
        let ghost views = words_of(text@, self.folding);
        let mut tokens: Vec<Token> = Vec::new();
        let mut k: usize = 0;
        while k < words.len()
            invariant
                k <= words.len() == views.len(),
                forall|m: int| 0 <= m < words@.len() ==> (#[trigger] words@[m])@ == views[m],
                tokens@ == tokens_upto(self@, views, k as int),
            decreases words.len() - k,
        {
            let mut more = self.segment(&words[k]);
            tokens.append(&mut more);
            k += 1;
        }
        tokens
    }

    /// Encodes `text`, or the pair of `text` and `pair`, as the input of a
    /// model with at most `max_length` positions.
    ///
    /// Fails with `TooLong` where the input would exceed `max_length` and
    /// the strategy is `DoNotTruncate`, and with `CannotShrink` where the
    /// strategy cannot remove enough tokens.
    pub fn encode(
        &self,
        text: &str,
        pair: Option<&str>,
        max_length: usize,
        strategy: TruncationStrategy,
        stride: usize,
    ) -> (outcome: Result<TokenizedInput, TruncationError>)
        ensures
            outcome_view(outcome) == encoded(
                self@,
                text@,
                match pair {
                    Some(other) => Some(other@),
                    None => None,
                },
                max_length as nat,
                strategy,
                stride as nat,
            ),
            outcome matches Ok(input) ==> input@.aligned() && input@.token_ids.len() <= max_length,
    {
        let first = self.tokenize(text);
        let second = match pair {
            Some(other) => Some(self.tokenize(other)),
            None => None,
        };
        assemble(first, second, &self.template, max_length, strategy, stride)
    }

    /// Encodes each of `inputs` by itself. The outcomes stand in the order
    /// of the inputs, and an input that fails does not keep the others
    /// from being encoded.
    pub fn encode_many(
        &self,
        inputs: &Vec<(String, Option<String>)>,
        max_length: usize,
        strategy: TruncationStrategy,
        stride: usize,
    ) -> (outcomes: Vec<Result<TokenizedInput, TruncationError>>)
        ensures
            outcomes@.len() == inputs@.len(),
            forall|i: int|
                0 <= i < inputs@.len() ==> outcome_view(#[trigger] outcomes@[i]) == encoded(
                    self@,
                    inputs@[i].0@,
                    text_of(inputs@[i].1),
                    max_length as nat,
                    strategy,
                    stride as nat,
                ),
    {
        let mut outcomes: Vec<Result<TokenizedInput, TruncationError>> = Vec::new();
        let mut i: usize = 0;
        while i < inputs.len()
            invariant
                i <= inputs.len(),
                outcomes@.len() == i,
                forall|m: int|
                    0 <= m < i ==> outcome_view(#[trigger] outcomes@[m]) == encoded(
                        self@,
                        inputs@[m].0@,
                        text_of(inputs@[m].1),
                        max_length as nat,
                        strategy,
                        stride as nat,
                    ),
            decreases inputs.len() - i,
        {
            let pair: Option<&str> = match &inputs[i].1 {
                Some(other) => Some(other.as_str()),
                None => None,
            };
            let outcome = self.encode(inputs[i].0.as_str(), pair, max_length, strategy, stride);
            outcomes.push(outcome);
            i += 1;
        }
        outcomes
    }
}

/// The spans of `tokens` account for the characters of `text`: they lie in
/// the text one after the other, and a character lies in one of them if it
/// is no whitespace, and in none if it is.
pub open spec fn offsets_cover(tokens: Seq<Token>, text: Seq<char>) -> bool {
    let parts = token_spans(tokens);
    &&& forall|k: int|
        0 <= k < parts.len() ==> (#[trigger] parts[k]).begin <= parts[k].end <= text.len()
    &&& forall|j: int, k: int|
        0 <= j < k < parts.len() ==> (#[trigger] parts[j]).end <= (#[trigger] parts[k]).begin
    &&& forall|j: int, k: int, i: int|
        0 <= j < parts.len() && 0 <= k < parts.len() && #[trigger] inside(parts[j], i)
            && #[trigger] inside(parts[k], i) ==> j == k
    &&& forall|i: int| 0 <= i < text.len() ==> (#[trigger] covered(parts, i) <==> !whitespace(text[i]))
}

/// A position lies in one of the spans of two lists together if it lies in
/// one of the spans of either.
proof fn lemma_covered_concat(a: Seq<Offset>, b: Seq<Offset>, i: int)
    ensures
        covered(a + b, i) <==> covered(a, i) || covered(b, i),
{
    let all = a + b;
    if covered(a, i) {
        let j = choose|j: int| 0 <= j < a.len() && inside(#[trigger] a[j], i);
        assert(all[j] == a[j]);
    }
    if covered(b, i) {
        let j = choose|j: int| 0 <= j < b.len() && inside(#[trigger] b[j], i);
        assert(all[a.len() + j] == b[j]);
    }
}

/// The tokens of a word of the text fill the span of the word.
pub proof fn lemma_word_tokens_fill(tokenizer: TokenizerView, text: Seq<char>, span: Offset)
    requires
        span.begin <= span.end,
    ensures
        fill(
            token_spans(word_tokens(tokenizer, word_of(text, span, tokenizer.folding))),
            span,
        ),
{
    let word = word_of(text, span, tokenizer.folding);
    lemma_word_chained(text, span, tokenizer.folding);
    match tokenizer.segmenter {
        SegmenterView::WordPiece { continuation } => {
            lemma_word_pieces_fill(tokenizer.vocab, continuation, word);
        },
        SegmenterView::PairMerging { ranks } => {
            lemma_word_merges_fill(tokenizer.vocab, ranks, word);
        },
    }
}

/// The spans of the tokens of the first `n` words lie in the text one
/// after the other, before the end of the last of these words, and hold
/// the positions that these words hold.
proof fn lemma_tokens_upto(tokenizer: TokenizerView, text: Seq<char>, n: int)
    requires
        text.len() <= usize::MAX,
        0 <= n <= spans(text).len(),
    ensures
        ({
            let parts = token_spans(
                tokens_upto(tokenizer, words_of(text, tokenizer.folding), n),
            );
            &&& forall|k: int|
                0 <= k < parts.len() ==> (#[trigger] parts[k]).begin <= parts[k].end <= text.len()
            &&& forall|j: int, k: int|
                0 <= j < k < parts.len() ==> (#[trigger] parts[j]).end <= (
                #[trigger] parts[k]).begin
            &&& forall|k: int|
                0 <= k < parts.len() ==> n > 0 && (#[trigger] parts[k]).end <= spans(text)[n
                    - 1].end
            &&& forall|i: int| #[trigger] covered(parts, i) <==> covered(spans(text).take(n), i)
        }),
    decreases n,
{
    let words = words_of(text, tokenizer.folding);
    let all = spans(text);
    let parts = token_spans(tokens_upto(tokenizer, words, n));
    lemma_spans_upto(text, text.len() as int);
    if n > 0 {
        lemma_tokens_upto(tokenizer, text, n - 1);
        let span = all[n - 1];
        let earlier = token_spans(tokens_upto(tokenizer, words, n - 1));
        let added = token_spans(word_tokens(tokenizer, words[n - 1]));
        lemma_word_tokens_fill(tokenizer, text, span);
        lemma_fill(added, span);
        assert(parts =~= earlier + added);
        assert forall|i: int| #[trigger] covered(parts, i) <==> covered(all.take(n), i) by {
            lemma_covered_concat(earlier, added, i);
            assert(all.take(n) =~= all.take(n - 1) + seq![span]);
            lemma_covered_concat(all.take(n - 1), seq![span], i);
            if covered(added, i) {
                assert(inside(seq![span][0], i));
            }
        }
    }
}

/// The offsets of the tokens of a text account for its characters: each
/// character that is no whitespace lies in the span of exactly one token,
/// and whitespace lies in none.
pub proof fn lemma_offsets_cover(tokenizer: TokenizerView, text: Seq<char>)
    requires
        text.len() <= usize::MAX,
    ensures
        offsets_cover(tokenized(tokenizer, text), text),
{
    let all = spans(text);
    let parts = token_spans(tokenized(tokenizer, text));
    lemma_tokens_upto(tokenizer, text, all.len() as int);
    lemma_spans_upto(text, text.len() as int);
    assert(all.take(all.len() as int) =~= all);
    assert(forall|i: int| #[trigger] covered(parts, i) <==> covered(all, i));
}

/// Encoding is a function of the tokenizer, the texts and the parameters:
/// two outcomes for the same ones are the same.
pub proof fn lemma_encoding_is_determined(
    tokenizer: TokenizerView,
    text: Seq<char>,
    pair: Option<Seq<char>>,
    max_length: nat,
    strategy: TruncationStrategy,
    stride: nat,
    once: Result<TokenizedInput, TruncationError>,
    again: Result<TokenizedInput, TruncationError>,
)
    requires
        outcome_view(once) == encoded(tokenizer, text, pair, max_length, strategy, stride),
        outcome_view(again) == encoded(tokenizer, text, pair, max_length, strategy, stride),
    ensures
        outcome_view(once) == outcome_view(again),
{
}

} // verus!
