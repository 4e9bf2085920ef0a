//! The records of an encoding: offsets, tokens, and the finished input of
//! a model.

use vstd::prelude::*;

verus! {

/// The span of characters `begin..end` of the source text, counted in
/// Unicode scalar values.
#[derive(Clone, Copy, Debug, PartialEq, Eq, Structural)]
pub struct Offset {
    pub begin: usize,
    pub end: usize,
}

/// A sub-word token: its id and the span of the source text it stands for.
#[derive(Clone, Copy, Debug, PartialEq, Eq, Structural)]
pub struct Token {
    pub id: i64,
    pub offset: Offset,
}

/// The ids of `tokens`.
pub open spec fn ids(tokens: Seq<Token>) -> Seq<i64> {
    Seq::new(tokens.len(), |i: int| tokens[i].id)
}

/// The offsets of `tokens`, each one present.
pub open spec fn offsets(tokens: Seq<Token>) -> Seq<Option<Offset>> {
    Seq::new(tokens.len(), |i: int| Some(tokens[i].offset))
}

/// The spans of `tokens`.
pub open spec fn token_spans(tokens: Seq<Token>) -> Seq<Offset> {
    Seq::new(tokens.len(), |i: int| tokens[i].offset)
}

/// Whether the position `i` lies in `span`.
pub open spec fn inside(span: Offset, i: int) -> bool {
    span.begin <= i < span.end
}

/// Whether the position `i` lies in one of `spans`.
pub open spec fn covered(spans: Seq<Offset>, i: int) -> bool {
    exists|j: int| 0 <= j < spans.len() && inside(#[trigger] spans[j], i)
}

/// The spans `parts` lie one after the other and fill `span`: the first
/// begins where `span` begins, each one begins where the one before it
/// ends, and the last ends where `span` ends.
pub open spec fn fill(parts: Seq<Offset>, span: Offset) -> bool {
    &&& parts.len() > 0
    &&& parts[0].begin == span.begin
    &&& parts.last().end == span.end
    &&& forall|j: int| 0 <= j < parts.len() ==> (#[trigger] parts[j]).begin <= parts[j].end
    &&& forall|j: int| 0 <= j < parts.len() - 1 ==> (#[trigger] parts[j]).end == parts[j + 1].begin
}

/// Spans that fill a span lie within it in their order, and every position
/// of it lies in one of them.
pub proof fn lemma_fill(parts: Seq<Offset>, span: Offset)
    requires
        fill(parts, span),
    ensures
        forall|j: int|
            0 <= j < parts.len() ==> span.begin <= (#[trigger] parts[j]).begin && parts[j].end
                <= span.end,
        forall|j: int, k: int|
            0 <= j < k < parts.len() ==> (#[trigger] parts[j]).end <= (#[trigger] parts[k]).begin,
        forall|i: int| span.begin <= i < span.end ==> #[trigger] covered(parts, i),
    decreases parts.len(),
{
    if parts.len() > 1 {
        let shorter = parts.drop_last();
        let inner = Offset { begin: span.begin, end: shorter.last().end };
        assert(fill(shorter, inner));
        lemma_fill(shorter, inner);
        assert forall|j: int, k: int| 0 <= j < k < parts.len() implies (#[trigger] parts[j]).end <= (
        #[trigger] parts[k]).begin by {
            assert(parts[j] == shorter[j]);
            if k < shorter.len() {
                assert(parts[k] == shorter[k]);
            }
        }
        assert forall|i: int| span.begin <= i < span.end implies #[trigger] covered(parts, i) by {
            if i < inner.end {
                assert(covered(shorter, i));
            }
        }
    }
}

/// The input of a model as the contracts see it.
pub struct InputView {
    /// The ids of the tokens, structural tokens included.
    pub token_ids: Seq<i64>,
    /// For each position, 0 for the first sequence and 1 for the second.
    pub segment_ids: Seq<i8>,
    /// For each position, 1 for a structural token and 0 for a token of
    /// the source text.
    pub special_tokens_mask: Seq<i8>,
    /// For each position, the span of the source text, absent for a
    /// structural token.
    pub token_offsets: Seq<Option<Offset>>,
    /// The ids that truncation recorded.
    pub overflowing_tokens: Seq<i64>,
    /// The number of tokens that truncation removed.
    pub num_truncated_tokens: nat,
}

impl InputView {
    /// The four sequences that run along the positions have one length.
    pub open spec fn aligned(self) -> bool {
        &&& self.segment_ids.len() == self.token_ids.len()
        &&& self.special_tokens_mask.len() == self.token_ids.len()
        &&& self.token_offsets.len() == self.token_ids.len()
    }
}

/// The input of a model for one example: token ids with, position for
/// position, segment ids, the mask of structural tokens and offsets into
/// the source text, and the record of what truncation removed.
#[derive(Debug, PartialEq, Eq)]
pub struct TokenizedInput {
    token_ids: Vec<i64>,
    segment_ids: Vec<i8>,
    special_tokens_mask: Vec<i8>,
    token_offsets: Vec<Option<Offset>>,
    overflowing_tokens: Vec<i64>,
    num_truncated_tokens: usize,
}

impl View for TokenizedInput {
    type V = InputView;

    closed spec fn view(&self) -> InputView {
        InputView {
            token_ids: self.token_ids@,
            segment_ids: self.segment_ids@,
            special_tokens_mask: self.special_tokens_mask@,
            token_offsets: self.token_offsets@,
            overflowing_tokens: self.overflowing_tokens@,
            num_truncated_tokens: self.num_truncated_tokens as nat,
        }
    }
}

impl TokenizedInput {
    #[verifier::type_invariant]
    spec fn well_formed(&self) -> bool {
        self@.aligned()
    }

    /// Makes the record of the given parts, which must run along the same
    /// positions.
    pub fn new(
        token_ids: Vec<i64>,
        segment_ids: Vec<i8>,
        special_tokens_mask: Vec<i8>,
        token_offsets: Vec<Option<Offset>>,
        overflowing_tokens: Vec<i64>,
        num_truncated_tokens: usize,
    ) -> (input: Option<TokenizedInput>)
        ensures
            input is Some <==> segment_ids.len() == token_ids.len() && special_tokens_mask.len()
                == token_ids.len() && token_offsets.len() == token_ids.len(),
            input matches Some(r) ==> r@ == (InputView {
                token_ids: token_ids@,
                segment_ids: segment_ids@,
                special_tokens_mask: special_tokens_mask@,
                token_offsets: token_offsets@,
                overflowing_tokens: overflowing_tokens@,
                num_truncated_tokens: num_truncated_tokens as nat,
            }),
    {
        if segment_ids.len() == token_ids.len() && special_tokens_mask.len() == token_ids.len()
            && token_offsets.len() == token_ids.len() {
            Some(
                TokenizedInput {
                    token_ids,
                    segment_ids,
                    special_tokens_mask,
                    token_offsets,
                    overflowing_tokens,
                    num_truncated_tokens,
                },
            )
        } else {
            None
        }
    }

    /// The ids of the tokens, structural tokens included.
    pub fn token_ids(&self) -> (r: &Vec<i64>)
        ensures
            r@ == self@.token_ids,
            self@.aligned(),
    {
        proof {
            use_type_invariant(self);
        }
        &self.token_ids
    }

    /// For each position, 0 for the first sequence and 1 for the second.
    pub fn segment_ids(&self) -> (r: &Vec<i8>)
        ensures
            r@ == self@.segment_ids,
            r.len() == self@.token_ids.len(),
    {
        proof {
            use_type_invariant(self);
        }
        &self.segment_ids
    }

    /// For each position, 1 for a structural token and 0 otherwise.
    pub fn special_tokens_mask(&self) -> (r: &Vec<i8>)
        ensures
            r@ == self@.special_tokens_mask,
            r.len() == self@.token_ids.len(),
    {
        proof {
            use_type_invariant(self);
        }
        &self.special_tokens_mask
    }

    /// For each position, the span of the source text, if there is one.
    pub fn token_offsets(&self) -> (r: &Vec<Option<Offset>>)
        ensures
            r@ == self@.token_offsets,
            r.len() == self@.token_ids.len(),
    {
        proof {
            use_type_invariant(self);
        }
        &self.token_offsets
    }

    /// The ids that truncation recorded.
    pub fn overflowing_tokens(&self) -> (r: &Vec<i64>)
        ensures
            r@ == self@.overflowing_tokens,
    {
        &self.overflowing_tokens
    }

    /// The number of tokens that truncation removed.
    pub fn num_truncated_tokens(&self) -> (r: usize)
        ensures
            r == self@.num_truncated_tokens,
    {
        self.num_truncated_tokens
    }
}

} // verus!
