//! Assembly: one or two token sequences become the bounded input of a
//! model, with structural tokens, segment ids, mask and offsets.

use crate::input::{ids, offsets, InputView, Offset, Token, TokenizedInput};
use crate::truncation::{
    lemma_truncated_fits, seq_of, truncate, truncated, TruncationError, TruncationStrategy,
};
use vstd::prelude::*;

verus! {

/// The ids of the structural tokens: the one that leads an input and the
/// one that closes each sequence.
#[derive(Clone, Copy, Debug, PartialEq, Eq, Structural)]
pub struct Template {
    pub leading: i64,
    pub separator: i64,
}

/// The number of structural tokens of an input: the leading one and one
/// separator for each sequence.
pub open spec fn specials(paired: bool) -> nat {
    if paired {
        3
    } else {
        2
    }
}

/// The sequence that holds `x` at each of `n` positions.
pub open spec fn repeat<A>(x: A, n: nat) -> Seq<A> {
    Seq::new(n, |i: int| x)
}

/// The input laid out after the template: the leading token, the first
/// sequence and a separator, all in segment 0; then, where there is a
/// second sequence, that sequence and a separator, in segment 1.
/// Structural tokens are masked with 1 and have no offset.
pub open spec fn laid_out(
    first: Seq<Token>,
    second: Option<Seq<Token>>,
    template: Template,
    overflowing_tokens: Seq<i64>,
    num_truncated_tokens: nat,
) -> InputView {
    let token_ids = seq![template.leading] + ids(first) + seq![template.separator];
    let segment_ids = repeat(0i8, first.len() + 2);
    let special_tokens_mask = seq![1i8] + repeat(0i8, first.len()) + seq![1i8];
    let token_offsets = seq![None::<Offset>] + offsets(first) + seq![None::<Offset>];
    match second {
        None => InputView {
            token_ids,
            segment_ids,
            special_tokens_mask,
            token_offsets,
            overflowing_tokens,
            num_truncated_tokens,
        },
        Some(other) => InputView {
            token_ids: token_ids + ids(other) + seq![template.separator],
            segment_ids: segment_ids + repeat(1i8, other.len() + 1),
            special_tokens_mask: special_tokens_mask + repeat(0i8, other.len()) + seq![1i8],
            token_offsets: token_offsets + offsets(other) + seq![None::<Offset>],
            overflowing_tokens,
            num_truncated_tokens,
        },
    }
}

/// The input assembled from `first` and `second` within `max_length`
/// positions, structural tokens included.
///
/// The sequences are truncated to the room that the structural tokens
/// leave, and laid out with what truncation recorded. Where `max_length`
/// has no room for the structural tokens alone, no truncation can meet it.
pub open spec fn assembled(
    first: Seq<Token>,
    second: Option<Seq<Token>>,
    template: Template,
    max_length: nat,
    strategy: TruncationStrategy,
    stride: nat,
) -> Result<InputView, TruncationError> {
    let fixed = specials(second is Some);
    if max_length < fixed {
        if strategy == TruncationStrategy::DoNotTruncate {
            Err(TruncationError::TooLong)
        } else {
            Err(TruncationError::CannotShrink)
        }
    } else {
        match truncated(first, second, (max_length - fixed) as nat, strategy, stride) {
            Ok(t) => Ok(
                laid_out(t.first, t.second, template, t.overflowing_tokens, t.num_truncated_tokens),
            ),
            Err(e) => Err(e),
        }
    }
}

/// The outcome of an encoding as the contracts see it.
pub open spec fn outcome_view(outcome: Result<TokenizedInput, TruncationError>) -> Result<
    InputView,
    TruncationError,
> {
    match outcome {
        Ok(input) => Ok(input@),
        Err(e) => Err(e),
    }
}

/// Appends the tokens of one sequence, in the segment `segment`, to the
/// four sequences of a layout.
fn push_sequence(
    tokens: &Vec<Token>,
    segment: i8,
    token_ids: &mut Vec<i64>,
    segment_ids: &mut Vec<i8>,
    special_tokens_mask: &mut Vec<i8>,
    token_offsets: &mut Vec<Option<Offset>>,
)
    ensures
        final(token_ids)@ == old(token_ids)@ + ids(tokens@),
        final(segment_ids)@ == old(segment_ids)@ + repeat(segment, tokens@.len()),
        final(special_tokens_mask)@ == old(special_tokens_mask)@ + repeat(0i8, tokens@.len()),
        final(token_offsets)@ == old(token_offsets)@ + offsets(tokens@),
{
    let mut i: usize = 0;
    while i < tokens.len()
        invariant
            i <= tokens.len(),
            token_ids@ == old(token_ids)@ + ids(tokens@.take(i as int)),
            segment_ids@ == old(segment_ids)@ + repeat(segment, i as nat),
            special_tokens_mask@ == old(special_tokens_mask)@ + repeat(0i8, i as nat),
            token_offsets@ == old(token_offsets)@ + offsets(tokens@.take(i as int)),
        decreases tokens.len() - i,
    {
        token_ids.push(tokens[i].id);
        segment_ids.push(segment);
        special_tokens_mask.push(0);
        token_offsets.push(Some(tokens[i].offset));
        i += 1;
    }
}

/// Lays out `first` and `second` after the template and attaches the
/// record of a truncation.
pub fn lay_out(
    first: &Vec<Token>,
    second: Option<&Vec<Token>>,
    template: &Template,
    overflowing_tokens: Vec<i64>,
    num_truncated_tokens: usize,
) -> (input: TokenizedInput)
    ensures
        input@ == laid_out(
            first@,
            match second {
                Some(s) => Some(s@),
                None => None,
            },
            *template,
            overflowing_tokens@,
            num_truncated_tokens as nat,
        ),
{
    let mut token_ids: Vec<i64> = Vec::new();
    let mut segment_ids: Vec<i8> = Vec::new();
    let mut special_tokens_mask: Vec<i8> = Vec::new();
    let mut token_offsets: Vec<Option<Offset>> = Vec::new();
    token_ids.push(template.leading);
    segment_ids.push(0);
    special_tokens_mask.push(1);
    token_offsets.push(None);
    push_sequence(
        first,
        0,
        &mut token_ids,
        &mut segment_ids,
        &mut special_tokens_mask,
        &mut token_offsets,
    );
    token_ids.push(template.separator);
    segment_ids.push(0);
    special_tokens_mask.push(1);
    token_offsets.push(None);
    match second {
        Some(other) => {
            push_sequence(
                other,
                1,
                &mut token_ids,
                &mut segment_ids,
                &mut special_tokens_mask,
                &mut token_offsets,
            );
            token_ids.push(template.separator);
            segment_ids.push(1);
            special_tokens_mask.push(1);
            token_offsets.push(None);
        },
        None => {},
    }
    let ghost expected = laid_out(
        first@,
        match second {
            Some(s) => Some(s@),
            None => None,
        },
        *template,
        overflowing_tokens@,
        num_truncated_tokens as nat,
    );
    assert(token_ids@ =~= expected.token_ids);
    assert(segment_ids@ =~= expected.segment_ids);
    assert(special_tokens_mask@ =~= expected.special_tokens_mask);
    assert(token_offsets@ =~= expected.token_offsets);
    match TokenizedInput::new(
        token_ids,
        segment_ids,
        special_tokens_mask,
        token_offsets,
        overflowing_tokens,
        num_truncated_tokens,
    ) {
        Some(input) => input,
        None => unreached(),
    }
}

/// Assembles the input of a model from one sequence, or from two, within
/// `max_length` positions.
///
/// Fails with `TooLong` where the input would exceed `max_length` and the
/// strategy is `DoNotTruncate`, and with `CannotShrink` where the strategy
/// cannot remove enough tokens.
pub fn assemble(
    first: Vec<Token>,
    second: Option<Vec<Token>>,
    template: &Template,
    max_length: usize,
    strategy: TruncationStrategy,
    stride: usize,
) -> (outcome: Result<TokenizedInput, TruncationError>)
    ensures
        outcome_view(outcome) == assembled(
            first@,
            seq_of(second),
            *template,
            max_length as nat,
            strategy,
            stride as nat,
        ),
        outcome matches Ok(input) ==> input@.aligned() && input@.token_ids.len() <= max_length,
{
    let fixed: usize = if second.is_some() {
        3
    } else {
        2
    };
    if max_length < fixed {
        return Err(
            match strategy {
                TruncationStrategy::DoNotTruncate => TruncationError::TooLong,
                _ => TruncationError::CannotShrink,
            },
        );
    }
    proof {
        lemma_assembled_fits(
            first@,
            seq_of(second),
            *template,
            max_length as nat,
            strategy,
            stride as nat,
        );
    }
    match truncate(first, second, max_length - fixed, strategy, stride) {
        Ok(t) => {
            let input = lay_out(
                &t.first,
                t.second.as_ref(),
                template,
                t.overflowing_tokens,
                t.num_truncated_tokens,
            );
            Ok(input)
        },
        Err(e) => Err(e),
    }
}

/// An assembled input has one entry per position in each of its four
/// aligned sequences, and no more positions than `max_length`.
pub proof fn lemma_assembled_fits(
    first: Seq<Token>,
    second: Option<Seq<Token>>,
    template: Template,
    max_length: nat,
    strategy: TruncationStrategy,
    stride: nat,
)
    ensures
        assembled(first, second, template, max_length, strategy, stride) matches Ok(input) ==> {
            &&& input.aligned()
            &&& input.token_ids.len() <= max_length
        },
{
    let fixed = specials(second is Some);
    if max_length >= fixed {
        lemma_truncated_fits(first, second, (max_length - fixed) as nat, strategy, stride);
    }
}

/// Truncation conserves tokens: the input that no budget bounds has as
/// many positions as the assembled input and the removed tokens together.
/// What is recorded is the removed tokens alone where the stride is 0, and
/// nothing where nothing was removed.
pub proof fn lemma_truncation_conserves(
    first: Seq<Token>,
    second: Option<Seq<Token>>,
    template: Template,
    max_length: nat,
    strategy: TruncationStrategy,
    stride: nat,
)
    ensures
        assembled(first, second, template, max_length, strategy, stride) matches Ok(input) ==> {
            &&& laid_out(first, second, template, Seq::empty(), 0).token_ids.len()
                == input.token_ids.len() + input.num_truncated_tokens
            &&& stride == 0 ==> input.overflowing_tokens.len() == input.num_truncated_tokens
            &&& input.num_truncated_tokens == 0 ==> input.overflowing_tokens.len() == 0
            &&& input.overflowing_tokens.len() >= input.num_truncated_tokens
        },
{
    let fixed = specials(second is Some);
    if max_length >= fixed {
        lemma_truncated_fits(first, second, (max_length - fixed) as nat, strategy, stride);
    }
}

} // verus!
