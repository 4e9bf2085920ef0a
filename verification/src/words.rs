//! Pre-splitting: the words of a text, each with its span in the text and
//! with the folded characters that are segmented.

use crate::fold::{fold_char, folded};
use crate::input::{covered, fill, inside, Offset};
use crate::text::{is_whitespace, whitespace};
use vstd::prelude::*;

verus! {

/// Whether `c` is a punctuation character of ASCII.
pub open spec fn punctuation(c: char) -> bool {
    let n = c as u32;
    ||| 33 <= n <= 47
    ||| 58 <= n <= 64
    ||| 91 <= n <= 96
    ||| 123 <= n <= 126
}

/// Tests whether `c` is a punctuation character of ASCII.
pub fn is_punctuation(c: char) -> (b: bool)
    ensures
        b == punctuation(c),
{
    let n: u32 = c as u32;
    (33 <= n && n <= 47) || (58 <= n && n <= 64) || (91 <= n && n <= 96) || (123 <= n && n <= 126)
}

/// Whether `c` belongs to a run of characters that make one word: it is
/// neither whitespace nor punctuation.
pub open spec fn letter(c: char) -> bool {
    !whitespace(c) && !punctuation(c)
}

/// Where the run of letters that stands at `from` ends: the first position
/// from there on that holds no letter, or the end of the text.
pub open spec fn run_end(text: Seq<char>, from: int) -> int
    decreases text.len() - from,
{
    if 0 <= from < text.len() && letter(text[from]) {
        run_end(text, from + 1)
    } else {
        from
    }
}

/// Whether a word begins at `i`: there stands a punctuation character, or
/// a letter that follows no letter.
pub open spec fn word_start(text: Seq<char>, i: int) -> bool {
    &&& 0 <= i < text.len()
    &&& punctuation(text[i]) || (letter(text[i]) && (i == 0 || !letter(text[i - 1])))
}

/// The span of the word that begins at `i`: one punctuation character, or
/// a run of letters.
pub open spec fn span_at(text: Seq<char>, i: int) -> Offset {
    Offset {
        begin: i as usize,
        end: if punctuation(text[i]) {
            (i + 1) as usize
        } else {
            run_end(text, i) as usize
        },
    }
}

/// The spans of the words that begin before `n`, in the order of the text.
pub open spec fn spans_upto(text: Seq<char>, n: int) -> Seq<Offset>
    decreases n,
{
    if n <= 0 {
        Seq::empty()
    } else if word_start(text, n - 1) {
        spans_upto(text, n - 1).push(span_at(text, n - 1))
    } else {
        spans_upto(text, n - 1)
    }
}

/// The spans of the words of `text`. Whitespace separates words and
/// belongs to none; each punctuation character is a word of its own.
pub open spec fn spans(text: Seq<char>) -> Seq<Offset> {
    spans_upto(text, text.len() as int)
}

/// A run of letters from `from` that stops at `end` is the run that
/// `run_end` finds.
pub proof fn lemma_run_end(text: Seq<char>, from: int, end: int)
    requires
        0 <= from <= end <= text.len(),
        forall|j: int| from <= j < end ==> letter(text[j]),
        end < text.len() ==> !letter(text[end]),
    ensures
        run_end(text, from) == end,
    decreases end - from,
{
    if from < end {
        lemma_run_end(text, from + 1, end);
    }
}

/// No word begins inside a run of letters.
pub proof fn lemma_spans_skip_run(text: Seq<char>, from: int, end: int)
    requires
        0 <= from < end <= text.len(),
        forall|j: int| from <= j < end ==> letter(text[j]),
    ensures
        spans_upto(text, end) == spans_upto(text, from + 1),
    decreases end - from,
{
    if from + 1 < end {
        lemma_spans_skip_run(text, from, end - 1);
    }
}

/// The spans of the words of `text`.
pub fn split_words(text: &Vec<char>) -> (found: Vec<Offset>)
    ensures
        found@ == spans(text@),
{
    let n = text.len();
    let mut found: Vec<Offset> = Vec::new();
    let mut i: usize = 0;
    while i < n
        invariant
            i <= n == text.len(),
            found@ == spans_upto(text@, i as int),
            i < n && letter(text[i as int]) ==> i == 0 || !letter(text[i - 1]),
        decreases n - i,
    {
        let c = text[i];
        if is_whitespace(c) {
            i += 1;
        } else if is_punctuation(c) {
            found.push(Offset { begin: i, end: i + 1 });
            i += 1;
        } else {
            let mut end: usize = i + 1;
            while end < n && !is_whitespace(text[end]) && !is_punctuation(text[end])
                invariant
                    i < end <= n == text.len(),
                    forall|j: int| i <= j < end ==> letter(text[j]),
                decreases n - end,
            {
                end += 1;
            }
            proof {
                lemma_run_end(text@, i as int, end as int);
                lemma_spans_skip_run(text@, i as int, end as int);
            }
            found.push(Offset { begin: i, end });
            i = end;
        }
    }
    found
}

/// A character of the folded text with the span of the source text for
/// which it stands.
#[derive(Clone, Copy, Debug, PartialEq, Eq, Structural)]
pub struct Glyph {
    pub ch: char,
    pub offset: Offset,
}

/// Which foldings the characters of a word undergo.
#[derive(Clone, Copy, Debug, PartialEq, Eq, Structural)]
pub struct Folding {
    pub lower_case: bool,
    pub strip_accents: bool,
}

/// A word as the contracts see it.
pub struct WordView {
    pub glyphs: Seq<Glyph>,
    pub span: Offset,
}

/// A word of the text: its folded characters, and its span in the text.
#[derive(Debug, PartialEq, Eq)]
pub struct Word {
    pub glyphs: Vec<Glyph>,
    pub span: Offset,
}

impl View for Word {
    type V = WordView;

    open spec fn view(&self) -> WordView {
        WordView { glyphs: self.glyphs@, span: self.span }
    }
}

/// The characters of `glyphs`.
pub open spec fn glyph_chars(glyphs: Seq<Glyph>) -> Seq<char> {
    Seq::new(glyphs.len(), |j: int| glyphs[j].ch)
}

/// The spans of `glyphs`.
pub open spec fn glyph_spans(glyphs: Seq<Glyph>) -> Seq<Offset> {
    Seq::new(glyphs.len(), |j: int| glyphs[j].offset)
}

/// The glyphs of a word lie one after the other and fill its span, unless
/// the word has none.
pub open spec fn chained(word: WordView) -> bool {
    &&& word.span.begin <= word.span.end
    &&& word.glyphs.len() > 0 ==> fill(glyph_spans(word.glyphs), word.span)
}

/// The characters `chars`, each with the position `at` from which it stems.
pub open spec fn tagged(chars: Seq<char>, at: usize) -> Seq<(char, usize)> {
    Seq::new(chars.len(), |j: int| (chars[j], at))
}

/// The folded characters of `text[begin..end]`, each with the position of
/// the character of the text from which it stems.
pub open spec fn stems(text: Seq<char>, begin: int, end: int, folding: Folding) -> Seq<
    (char, usize),
>
    decreases end - begin,
{
    if end <= begin {
        Seq::empty()
    } else {
        stems(text, begin, end - 1, folding) + tagged(
            folded(text[end - 1], folding.lower_case, folding.strip_accents),
            (end - 1) as usize,
        )
    }
}

/// The glyph that stands at `j` in a word with the span `span`: it begins
/// where the span begins if it is the first, else at the position from
/// which it stems; it ends where the next glyph begins, or where the span
/// ends if it is the last.
pub open spec fn glyph_at(tags: Seq<(char, usize)>, span: Offset, j: int) -> Glyph {
    Glyph {
        ch: tags[j].0,
        offset: Offset {
            begin: if j == 0 {
                span.begin
            } else {
                tags[j].1
            },
            end: if j + 1 == tags.len() {
                span.end
            } else {
                tags[j + 1].1
            },
        },
    }
}

/// The glyphs of a word with the span `span`. A character of the text that
/// folds to nothing is added to the glyph before it, and of several glyphs
/// from one character the last has its span.
pub open spec fn glyphs_of(tags: Seq<(char, usize)>, span: Offset) -> Seq<Glyph> {
    Seq::new(tags.len(), |j: int| glyph_at(tags, span, j))
}

/// The word that `text` holds in `span`.
pub open spec fn word_of(text: Seq<char>, span: Offset, folding: Folding) -> WordView {
    WordView {
        glyphs: glyphs_of(stems(text, span.begin as int, span.end as int, folding), span),
        span,
    }
}

/// The words of `text`.
pub open spec fn words_of(text: Seq<char>, folding: Folding) -> Seq<WordView> {
    Seq::new(spans(text).len(), |k: int| word_of(text, spans(text)[k], folding))
}

/// The folded characters of `text` in `span`, each with the position of
/// the character of the text from which it stems.
pub fn fold_stems(text: &Vec<char>, span: Offset, folding: Folding) -> (tags: Vec<(char, usize)>)
    requires
        span.begin <= span.end <= text.len(),
    ensures
        tags@ == stems(text@, span.begin as int, span.end as int, folding),
{
    let mut tags: Vec<(char, usize)> = Vec::new();
    let mut i: usize = span.begin;
    while i < span.end
        invariant
            span.begin <= i <= span.end <= text.len(),
            tags@ == stems(text@, span.begin as int, i as int, folding),
        decreases span.end - i,
    {
        let chars = fold_char(text[i], folding.lower_case, folding.strip_accents);
        let ghost before = tags@;
        let mut j: usize = 0;
        while j < chars.len()
            invariant
                j <= chars.len(),
                tags@ == before + tagged(chars@.take(j as int), i),
            decreases chars.len() - j,
        {
            tags.push((chars[j], i));
            j += 1;
        }
        i += 1;
    }
    tags
}

/// Gives each folded character of a word its span within `span`.
pub fn chain_glyphs(tags: &Vec<(char, usize)>, span: Offset) -> (glyphs: Vec<Glyph>)
    ensures
        glyphs@ == glyphs_of(tags@, span),
{
    let mut glyphs: Vec<Glyph> = Vec::new();
    let n = tags.len();
    let mut j: usize = 0;
    while j < n
        invariant
            j <= n == tags.len(),
            glyphs@ == glyphs_of(tags@, span).take(j as int),
        decreases n - j,
    {
        let begin = if j == 0 {
            span.begin
        } else {
            tags[j].1
        };
        let end = if j + 1 == n {
            span.end
        } else {
            tags[j + 1].1
        };
        let glyph = Glyph { ch: tags[j].0, offset: Offset { begin, end } };
        assert(glyphs_of(tags@, span)[j as int] == glyph);
        glyphs.push(glyph);
        j += 1;
    }
    assert(glyphs_of(tags@, span).take(n as int) =~= glyphs_of(tags@, span));
    glyphs
}

/// Folds the characters of `text` in `span` into the glyphs of a word.
pub fn fold_span(text: &Vec<char>, span: Offset, folding: Folding) -> (word: Word)
    requires
        span.begin <= span.end <= text.len(),
    ensures
        word@ == word_of(text@, span, folding),
{
    let tags = fold_stems(text, span, folding);
    Word { glyphs: chain_glyphs(&tags, span), span }
}

/// Splits `text` into its words and folds their characters.
pub fn pre_split(text: &Vec<char>, folding: Folding) -> (words: Vec<Word>)
    ensures
        words@.len() == words_of(text@, folding).len(),
        forall|k: int| 0 <= k < words@.len() ==> (#[trigger] words@[k])@ == words_of(text@, folding)[k],
{
    let found = split_words(text);
    proof {
        lemma_spans_upto(text@, text.len() as int);
    }
    let mut words: Vec<Word> = Vec::new();
    let mut k: usize = 0;
    while k < found.len()
        invariant
            k <= found.len(),
            found@ == spans(text@),
            words@.len() == k,
            forall|m: int| 0 <= m < k ==> (#[trigger] words@[m])@ == words_of(text@, folding)[m],
            forall|m: int|
                0 <= m < found@.len() ==> (#[trigger] found@[m]).begin < found@[m].end
                    <= text@.len(),
        decreases found.len() - k,
    {
        let word = fold_span(text, found[k], folding);
        words.push(word);
        k += 1;
    }
    words
}

/// A run of letters ends within the text, and after its first letter.
pub proof fn lemma_run_within(text: Seq<char>, from: int)
    requires
        0 <= from <= text.len(),
    ensures
        from <= run_end(text, from) <= text.len(),
        from < text.len() && letter(text[from]) ==> from < run_end(text, from),
        forall|j: int| from <= j < run_end(text, from) ==> letter(text[j]),
        run_end(text, from) < text.len() ==> !letter(text[run_end(text, from)]),
    decreases text.len() - from,
{
    if from < text.len() && letter(text[from]) {
        lemma_run_within(text, from + 1);
    }
}

/// The folded characters of a part of the text stem from positions of
/// that part, in the order of the text.
pub proof fn lemma_stems_sorted(text: Seq<char>, begin: int, end: int, folding: Folding)
    requires
        0 <= begin <= end <= usize::MAX,
    ensures
        forall|j: int|
            0 <= j < stems(text, begin, end, folding).len() ==> begin <= (#[trigger] stems(
                text,
                begin,
                end,
                folding,
            )[j]).1 < end,
        forall|j: int, k: int|
            0 <= j <= k < stems(text, begin, end, folding).len() ==> (#[trigger] stems(
                text,
                begin,
                end,
                folding,
            )[j]).1 <= (#[trigger] stems(text, begin, end, folding)[k]).1,
    decreases end - begin,
{
    if begin < end {
        lemma_stems_sorted(text, begin, end - 1, folding);
        let earlier = stems(text, begin, end - 1, folding);
        assert(stems(text, begin, end, folding).take(earlier.len() as int) == earlier);
    }
}

/// The glyphs of a word of the text lie one after the other and fill the
/// span of the word.
pub proof fn lemma_word_chained(text: Seq<char>, span: Offset, folding: Folding)
    requires
        span.begin <= span.end,
    ensures
        chained(word_of(text, span, folding)),
{
    let word = word_of(text, span, folding);
    lemma_stems_sorted(text, span.begin as int, span.end as int, folding);
    if word.glyphs.len() > 0 {
        assert(fill(glyph_spans(word.glyphs), span));
    }
}

/// The words of a text lie in it one after the other; they hold no
/// whitespace, and every character that is no whitespace lies in a word.
/// This is stated of the words that begin before `n`, and of the
/// characters before `n`.
pub proof fn lemma_spans_upto(text: Seq<char>, n: int)
    requires
        0 <= n <= text.len() <= usize::MAX,
    ensures
        forall|m: int|
            0 <= m < spans_upto(text, n).len() ==> {
                let span = #[trigger] spans_upto(text, n)[m];
                &&& span.begin < n
                &&& span.begin < span.end <= text.len()
                &&& word_start(text, span.begin as int)
                &&& span == span_at(text, span.begin as int)
            },
        forall|m: int, i: int|
            0 <= m < spans_upto(text, n).len() && inside(#[trigger] spans_upto(text, n)[m], i)
                ==> !whitespace(#[trigger] text[i]),
        forall|m: int|
            0 <= m < spans_upto(text, n).len() - 1 ==> (#[trigger] spans_upto(text, n)[m]).end
                <= spans_upto(text, n)[m + 1].begin,
        forall|i: int|
            0 <= i < n && !whitespace(text[i]) ==> #[trigger] covered(spans_upto(text, n), i),
    decreases n,
{
    if n > 0 {
        lemma_spans_upto(text, n - 1);
        let earlier = spans_upto(text, n - 1);
        let all = spans_upto(text, n);
        let at = n - 1;
        if word_start(text, at) {
            lemma_run_within(text, at);
            assert forall|m: int| 0 <= m < all.len() - 1 implies (#[trigger] all[m]).end <= all[m
                + 1].begin by {
                if m + 1 == earlier.len() {
                    lemma_run_within(text, earlier[m].begin as int);
                }
            }
            assert forall|i: int| 0 <= i < n && !whitespace(text[i]) implies #[trigger] covered(
                all,
                i,
            ) by {
                if i < at {
                    assert(covered(earlier, i));
                    let m = choose|m: int| 0 <= m < earlier.len() && inside(#[trigger] earlier[m], i);
                    assert(inside(all[m], i));
                } else {
                    assert(inside(all[all.len() - 1], i));
                }
            }
        } else {
            assert forall|i: int| 0 <= i < n && !whitespace(text[i]) implies #[trigger] covered(
                all,
                i,
            ) by {
                if i == at {
                    assert(covered(earlier, at - 1));
                    let m = choose|m: int|
                        0 <= m < earlier.len() && inside(#[trigger] earlier[m], at - 1);
                    lemma_run_within(text, earlier[m].begin as int);
                }
            }
        }
    }
}

/// The folded characters of `text[begin..end]`, in the order of the text.
pub open spec fn folded_text(text: Seq<char>, begin: int, end: int, folding: Folding) -> Seq<char>
    decreases end - begin,
{
    if end <= begin {
        Seq::empty()
    } else {
        folded_text(text, begin, end - 1, folding) + folded(
            text[end - 1],
            folding.lower_case,
            folding.strip_accents,
        )
    }
}

/// The characters of the glyphs of a word are the folded characters of the
/// span of the word, in the order of the text.
pub proof fn lemma_word_chars(text: Seq<char>, span: Offset, folding: Folding)
    ensures
        glyph_chars(word_of(text, span, folding).glyphs) == folded_text(
            text,
            span.begin as int,
            span.end as int,
            folding,
        ),
{
    lemma_stems_chars(text, span.begin as int, span.end as int, folding);
    let tags = stems(text, span.begin as int, span.end as int, folding);
    assert(glyph_chars(glyphs_of(tags, span)) == Seq::new(tags.len(), |j: int| tags[j].0));
}

/// The characters of `stems` are the folded characters of the same part of
/// the text.
proof fn lemma_stems_chars(text: Seq<char>, begin: int, end: int, folding: Folding)
    ensures
        Seq::new(
            stems(text, begin, end, folding).len(),
            |j: int| stems(text, begin, end, folding)[j].0,
        ) == folded_text(text, begin, end, folding),
    decreases end - begin,
{
    if begin < end {
        lemma_stems_chars(text, begin, end - 1, folding);
        let earlier = stems(text, begin, end - 1, folding);
        let all = stems(text, begin, end, folding);
        let last = folded(text[end - 1], folding.lower_case, folding.strip_accents);
        assert(Seq::new(all.len(), |j: int| all[j].0) == Seq::new(
            earlier.len(),
            |j: int| earlier[j].0,
        ) + last);
    }
}

} // verus!
