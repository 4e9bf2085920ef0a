//! Greedy segmentation of a word into the longest pieces that the
//! vocabulary holds, from left to right.

use crate::input::{fill, lemma_fill, token_spans, Offset, Token};
use crate::vocab::{CtrlVocab, VocabView};
use crate::words::{chained, glyph_chars, glyph_spans, Glyph, Word, WordView};
use vstd::hash_map::StringHashMap;
use vstd::prelude::*;

verus! {

/// The string under which the piece `chars[from..to]` is looked up: the
/// piece itself at the start of the word, and after the continuation
/// marker elsewhere.
pub open spec fn candidate(chars: Seq<char>, marker: Seq<char>, from: int, to: int) -> Seq<char> {
    if from > 0 {
        marker + chars.subrange(from, to)
    } else {
        chars.subrange(from, to)
    }
}

/// The end of the longest piece from `from` that ends at `to` or before it
/// and that `values` holds, or `from` where it holds none.
pub open spec fn longest_match(
    values: Map<Seq<char>, i64>,
    chars: Seq<char>,
    marker: Seq<char>,
    from: int,
    to: int,
) -> int
    decreases to - from,
{
    if to <= from {
        from
    } else if values.contains_key(candidate(chars, marker, from, to)) {
        to
    } else {
        longest_match(values, chars, marker, from, to - 1)
    }
}

/// The pieces into which `chars[from..]` falls when each piece is the
/// longest that `values` holds at its place; nothing where at some place
/// `values` holds no piece.
pub open spec fn pieces(
    values: Map<Seq<char>, i64>,
    chars: Seq<char>,
    marker: Seq<char>,
    from: int,
) -> Option<Seq<(int, int)>>
    decreases chars.len() - from,
{
    if from >= chars.len() {
        Some(Seq::empty())
    } else {
        let to = longest_match(values, chars, marker, from, chars.len() as int);
        if to <= from || to > chars.len() {
            None
        } else {
            match pieces(values, chars, marker, to) {
                Some(rest) => Some(seq![(from, to)] + rest),
                None => None,
            }
        }
    }
}

/// The token of the piece `piece` of a word: the id of its string, and the
/// span from the begin of its first glyph to the end of its last.
pub open spec fn piece_token(
    values: Map<Seq<char>, i64>,
    glyphs: Seq<Glyph>,
    marker: Seq<char>,
    piece: (int, int),
) -> Token {
    Token {
        id: values[candidate(glyph_chars(glyphs), marker, piece.0, piece.1)],
        offset: Offset {
            begin: glyphs[piece.0].offset.begin,
            end: glyphs[piece.1 - 1].offset.end,
        },
    }
}

/// The one token of a word that cannot be resolved: the unknown token over
/// the span of the word.
pub open spec fn unknown_word(vocab: VocabView, span: Offset) -> Seq<Token> {
    seq![Token { id: vocab.unknown_id(), offset: span }]
}

/// The tokens of a word: those of its pieces; or the unknown token over
/// the whole word, where the word has no glyphs or does not fall into
/// pieces of the vocabulary.
pub open spec fn word_pieces(vocab: VocabView, marker: Seq<char>, word: WordView) -> Seq<Token> {
    if word.glyphs.len() == 0 {
        unknown_word(vocab, word.span)
    } else {
        match pieces(vocab.values, glyph_chars(word.glyphs), marker, 0) {
            Some(found) => Seq::new(
                found.len(),
                |k: int| piece_token(vocab.values, word.glyphs, marker, found[k]),
            ),
            None => unknown_word(vocab, word.span),
        }
    }
}

/// The string under which the piece `from..to` of `glyphs` is looked up.
fn candidate_string(glyphs: &Vec<Glyph>, marker: &str, from: usize, to: usize) -> (s: String)
    requires
        from <= to <= glyphs.len(),
    ensures
        s@ == candidate(glyph_chars(glyphs@), marker@, from as int, to as int),
{
    let mut s = if from > 0 {
        marker.to_owned()
    } else {
        String::new()
    };
    let ghost start = s@;
    let mut i: usize = from;
    while i < to
        invariant
            from <= i <= to <= glyphs.len(),
            s@ == start + glyph_chars(glyphs@).subrange(from as int, i as int),
        decreases to - i,
    {
        s.push(glyphs[i].ch);
        i += 1;
    }
    s
}

/// Looks for the longest piece of `glyphs` from `from` that `values`
/// holds, and gives its end and its id.
fn find_longest(
    values: &StringHashMap<i64>,
    glyphs: &Vec<Glyph>,
    marker: &str,
    from: usize,
) -> (found: Option<(usize, i64)>)
    requires
        from < glyphs.len(),
    ensures
        match found {
            Some((to, id)) => {
                &&& from < to <= glyphs.len()
                &&& longest_match(
                    values@,
                    glyph_chars(glyphs@),
                    marker@,
                    from as int,
                    glyphs.len() as int,
                ) == to
                &&& values@.contains_key(
                    candidate(glyph_chars(glyphs@), marker@, from as int, to as int),
                )
                &&& id == values@[candidate(glyph_chars(glyphs@), marker@, from as int, to as int)]
            },
            None => longest_match(
                values@,
                glyph_chars(glyphs@),
                marker@,
                from as int,
                glyphs.len() as int,
            ) == from,
        },
{
    let mut to: usize = glyphs.len();
    while to > from
        invariant
            from <= to <= glyphs.len(),
            longest_match(
                values@,
                glyph_chars(glyphs@),
                marker@,
                from as int,
                glyphs.len() as int,
            ) == longest_match(values@, glyph_chars(glyphs@), marker@, from as int, to as int),
        decreases to - from,
    {
        let candidate = candidate_string(glyphs, marker, from, to);
        match values.get(candidate.as_str()) {
            Some(id) => {
                return Some((to, *id));
            },
            None => {},
        }
        to -= 1;
    }
    None
}

/// Segments `word` into the longest pieces that the vocabulary holds. A
/// piece after the first is looked up behind the continuation marker
/// `marker`.
pub fn wordpiece(vocab: &CtrlVocab, marker: &str, word: &Word) -> (tokens: Vec<Token>)
    ensures
        tokens@ == word_pieces(vocab@, marker@, word@),
        tokens@.len() > 0,
{
    let n = word.glyphs.len();
    let values = vocab.values();
    let ghost chars = glyph_chars(word.glyphs@);
    let mut tokens: Vec<Token> = Vec::new();
    let ghost mut done: Seq<(int, int)> = Seq::empty();
    let mut from: usize = 0;
    while from < n
        invariant
            from <= n == word.glyphs.len(),
            values@ == vocab@.values,
            chars == glyph_chars(word.glyphs@),
            from == 0 ==> done.len() == 0,
            from > 0 ==> done.len() > 0,
            pieces(values@, chars, marker@, 0) == match pieces(values@, chars, marker@, from as int) {
                Some(rest) => Some(done + rest),
                None => None,
            },
            tokens@ == Seq::new(
                done.len(),
                |k: int| piece_token(values@, word.glyphs@, marker@, done[k]),
            ),
        decreases n - from,
    {
        match find_longest(values, &word.glyphs, marker, from) {
            None => {
                let mut unknown: Vec<Token> = Vec::new();
                unknown.push(Token { id: vocab.unknown_id(), offset: word.span });
                return unknown;
            },
            Some((to, id)) => {
                let token = Token {
                    id,
                    offset: Offset {
                        begin: word.glyphs[from].offset.begin,
                        end: word.glyphs[to - 1].offset.end,
                    },
                };
                proof {
                    if let Some(rest) = pieces(values@, chars, marker@, to as int) {
                        assert(done + (seq![(from as int, to as int)] + rest) == done.push(
                            (from as int, to as int),
                        ) + rest);
                    }
                    done = done.push((from as int, to as int));
                }
                tokens.push(token);
                from = to;
            },
        }
    }
    if n == 0 {
        tokens.push(Token { id: vocab.unknown_id(), offset: word.span });
    }
    tokens
}

/// The longest match is a piece that the vocabulary holds, and it holds no
/// longer piece from the same place up to `to`. Where the longest match is
/// empty, the vocabulary holds no piece from that place.
pub proof fn lemma_longest_match(
    values: Map<Seq<char>, i64>,
    chars: Seq<char>,
    marker: Seq<char>,
    from: int,
    to: int,
)
    requires
        from <= to,
    ensures
        from <= longest_match(values, chars, marker, from, to) <= to,
        from < longest_match(values, chars, marker, from, to) ==> values.contains_key(
            candidate(chars, marker, from, longest_match(values, chars, marker, from, to)),
        ),
        forall|end: int|
            longest_match(values, chars, marker, from, to) < end <= to ==> !values.contains_key(
                #[trigger] candidate(chars, marker, from, end),
            ),
    decreases to - from,
{
    if from < to && !values.contains_key(candidate(chars, marker, from, to)) {
        lemma_longest_match(values, chars, marker, from, to - 1);
    }
}

/// The pieces of a word lie one after the other, none of them empty, from
/// the place where the search began to the end of the word.
pub proof fn lemma_pieces_chain(
    values: Map<Seq<char>, i64>,
    chars: Seq<char>,
    marker: Seq<char>,
    from: int,
)
    requires
        0 <= from < chars.len(),
        pieces(values, chars, marker, from) is Some,
    ensures
        ({
            let found = pieces(values, chars, marker, from).unwrap();
            &&& found.len() > 0
            &&& found[0].0 == from
            &&& found.last().1 == chars.len()
            &&& forall|k: int|
                0 <= k < found.len() ==> 0 <= (#[trigger] found[k]).0 < found[k].1 <= chars.len()
            &&& forall|k: int|
                0 <= k < found.len() - 1 ==> (#[trigger] found[k]).1 == found[k + 1].0
        }),
    decreases chars.len() - from,
{
    let to = longest_match(values, chars, marker, from, chars.len() as int);
    let rest = pieces(values, chars, marker, to).unwrap();
    assert(pieces(values, chars, marker, from) == Some(seq![(from, to)] + rest));
    if to < chars.len() {
        lemma_pieces_chain(values, chars, marker, to);
    }
}

/// The tokens of a word lie one after the other and fill the span of the
/// word.
pub proof fn lemma_word_pieces_fill(vocab: VocabView, marker: Seq<char>, word: WordView)
    requires
        chained(word),
    ensures
        fill(token_spans(word_pieces(vocab, marker, word)), word.span),
{
    let tokens = word_pieces(vocab, marker, word);
    let chars = glyph_chars(word.glyphs);
    if word.glyphs.len() > 0 && pieces(vocab.values, chars, marker, 0) is Some {
        let found = pieces(vocab.values, chars, marker, 0).unwrap();
        lemma_pieces_chain(vocab.values, chars, marker, 0);
        let parts = glyph_spans(word.glyphs);
        lemma_fill(parts, word.span);
        let spans = token_spans(tokens);
        assert forall|k: int| 0 <= k < spans.len() implies (#[trigger] spans[k]).begin
            <= spans[k].end by {
            let a = found[k].0;
            let b = found[k].1 - 1;
            if a < b {
                assert(parts[a].end <= parts[b].begin);
            }
        }
        assert forall|k: int| 0 <= k < spans.len() - 1 implies (#[trigger] spans[k]).end == spans[k
            + 1].begin by {
            let b = found[k].1 - 1;
            assert(spans[k].end == parts[b].end);
        }
    }
}

} // verus!
