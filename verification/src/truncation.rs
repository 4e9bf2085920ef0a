//! Truncation: shortening one or two token sequences to a budget, and the
//! record of what was removed.

use crate::input::{ids, Token};
use vstd::prelude::*;

verus! {

/// Which tokens are removed when two sequences together exceed the budget.
#[derive(Clone, Copy, Debug, PartialEq, Eq, Structural)]
pub enum TruncationStrategy {
    /// One token at a time from the end of the longer sequence, from the
    /// first where both are equally long.
    LongestFirst,
    /// From the end of the first sequence only.
    OnlyFirst,
    /// From the end of the second sequence only.
    OnlySecond,
    /// None: exceeding the budget is an error.
    DoNotTruncate,
}

/// Why two sequences could not be brought to the budget.
#[derive(Clone, Copy, Debug, PartialEq, Eq, Structural)]
pub enum TruncationError {
    /// The budget is exceeded and the strategy removes nothing.
    TooLong,
    /// The sequence that the strategy shortens is too short to meet the
    /// budget.
    CannotShrink,
}

impl TruncationError {
    /// A sentence that names the error.
    pub fn message(&self) -> (text: &'static str)
        ensures
            text@ == match *self {
                TruncationError::TooLong => "truncation needed but no truncation requested"@,
                TruncationError::CannotShrink => "sequence too short for the requested truncation"@,
            },
    {
        match self {
            TruncationError::TooLong => "truncation needed but no truncation requested",
            TruncationError::CannotShrink => "sequence too short for the requested truncation",
        }
    }
}

/// The outcome of a truncation as the contracts see it.
pub struct TruncatedView {
    /// What is left of the first sequence.
    pub first: Seq<Token>,
    /// What is left of the second sequence, where there is one.
    pub second: Option<Seq<Token>>,
    /// The context kept for a sliding window, then the ids of the removed
    /// tokens in the order of their removal.
    pub overflowing_tokens: Seq<i64>,
    /// The number of removed tokens.
    pub num_truncated_tokens: nat,
}

/// The outcome of a truncation.
#[derive(Debug, PartialEq, Eq)]
pub struct Truncated {
    pub first: Vec<Token>,
    pub second: Option<Vec<Token>>,
    pub overflowing_tokens: Vec<i64>,
    pub num_truncated_tokens: usize,
}

/// An optional sequence as the contracts see it.
pub open spec fn seq_of(tokens: Option<Vec<Token>>) -> Option<Seq<Token>> {
    match tokens {
        Some(v) => Some(v@),
        None => None,
    }
}

/// The tokens of an optional sequence, none where it is absent.
pub open spec fn or_empty(tokens: Option<Seq<Token>>) -> Seq<Token> {
    match tokens {
        Some(s) => s,
        None => Seq::empty(),
    }
}

impl View for Truncated {
    type V = TruncatedView;

    open spec fn view(&self) -> TruncatedView {
        TruncatedView {
            first: self.first@,
            second: seq_of(self.second),
            overflowing_tokens: self.overflowing_tokens@,
            num_truncated_tokens: self.num_truncated_tokens as nat,
        }
    }
}

/// The outcome of a call for truncation as the contracts see it.
pub open spec fn truncation_view(outcome: Result<Truncated, TruncationError>) -> Result<
    TruncatedView,
    TruncationError,
> {
    match outcome {
        Ok(t) => Ok(t@),
        Err(e) => Err(e),
    }
}

/// By how many tokens sequences of the lengths `first` and `second` exceed
/// the budget `room`.
pub open spec fn excess(first: nat, second: nat, room: nat) -> nat {
    if first + second > room {
        (first + second - room) as nat
    } else {
        0
    }
}

/// Removing `count` tokens, each from the end of the sequence that is then
/// the longer one, from `first` where both are equally long: what is left
/// of `first`, what is left of `second`, and the ids of the removed tokens
/// in the order of their removal.
pub open spec fn longest_first(first: Seq<Token>, second: Seq<Token>, count: nat) -> (
    Seq<Token>,
    Seq<Token>,
    Seq<i64>,
)
    decreases count,
{
    if count == 0 || first.len() + second.len() == 0 {
        (first, second, Seq::empty())
    } else if first.len() >= second.len() {
        let rest = longest_first(first.drop_last(), second, (count - 1) as nat);
        (rest.0, rest.1, seq![first.last().id] + rest.2)
    } else {
        let rest = longest_first(first, second.drop_last(), (count - 1) as nat);
        (rest.0, rest.1, seq![second.last().id] + rest.2)
    }
}

/// The ids of the last `count` tokens of `tokens`, the last one first.
pub open spec fn tail_first(tokens: Seq<Token>, count: nat) -> Seq<i64> {
    Seq::new(count, |i: int| tokens[tokens.len() - 1 - i].id)
}

/// The context that a stride of `stride` keeps: the ids of the last
/// `stride` tokens of `kept`, or of all of them if they are fewer.
pub open spec fn context(kept: Seq<Token>, stride: nat) -> Seq<i64> {
    if stride <= kept.len() {
        ids(kept.skip(kept.len() - stride))
    } else {
        ids(kept)
    }
}

/// What truncation makes of `first` and `second` where together they may
/// have `room` tokens.
///
/// Within the budget nothing is removed and nothing recorded. Beyond it
/// the strategy decides which tokens leave, always from the end of a
/// sequence and one at a time. The record holds the context, taken from
/// what is left of the shortened sequence (of the first, where the
/// strategy shortens the longer one), and then the removed ids.
pub open spec fn truncated(
    first: Seq<Token>,
    second: Option<Seq<Token>>,
    room: nat,
    strategy: TruncationStrategy,
    stride: nat,
) -> Result<TruncatedView, TruncationError> {
    let other = or_empty(second);
    let count = excess(first.len(), other.len(), room);
    if count == 0 {
        Ok(
            TruncatedView {
                first,
                second,
                overflowing_tokens: Seq::empty(),
                num_truncated_tokens: 0,
            },
        )
    } else {
        match strategy {
            TruncationStrategy::DoNotTruncate => Err(TruncationError::TooLong),
            TruncationStrategy::LongestFirst => {
                let cut = longest_first(first, other, count);
                Ok(
                    TruncatedView {
                        first: cut.0,
                        second: if second is Some {
                            Some(cut.1)
                        } else {
                            None
                        },
                        overflowing_tokens: context(cut.0, stride) + cut.2,
                        num_truncated_tokens: count,
                    },
                )
            },
            TruncationStrategy::OnlyFirst => {
                if first.len() < count {
                    Err(TruncationError::CannotShrink)
                } else {
                    let kept = first.take(first.len() - count);
                    Ok(
                        TruncatedView {
                            first: kept,
                            second,
                            overflowing_tokens: context(kept, stride) + tail_first(first, count),
                            num_truncated_tokens: count,
                        },
                    )
                }
            },
            TruncationStrategy::OnlySecond => {
                if other.len() < count {
                    Err(TruncationError::CannotShrink)
                } else {
                    let kept = other.take(other.len() - count);
                    Ok(
                        TruncatedView {
                            first,
                            second: Some(kept),
                            overflowing_tokens: context(kept, stride) + tail_first(other, count),
                            num_truncated_tokens: count,
                        },
                    )
                }
            },
        }
    }
}

/// Removes the last `count` tokens of `tokens` and appends their ids to
/// `removed`, the last token first.
fn cut_tail(tokens: &mut Vec<Token>, count: usize, removed: &mut Vec<i64>)
    requires
        count <= old(tokens).len(),
    ensures
        final(tokens)@ == old(tokens)@.take(old(tokens).len() - count),
        final(removed)@ == old(removed)@ + tail_first(old(tokens)@, count as nat),
{
    let ghost before = tokens@;
    let ghost start = removed@;
    let mut done: usize = 0;
    while done < count
        invariant
            done <= count <= before.len(),
            tokens@ == before.take(before.len() - done),
            removed@ == start + tail_first(before, done as nat),
        decreases count - done,
    {
        let token = tokens.pop().unwrap();
        removed.push(token.id);
        done += 1;
    }
}

/// The record of a truncation: the context that `stride` keeps of `kept`,
/// then `removed`.
fn with_context(kept: &Vec<Token>, stride: usize, removed: Vec<i64>) -> (record: Vec<i64>)
    ensures
        record@ == context(kept@, stride as nat) + removed@,
{
    let from: usize = if stride <= kept.len() {
        kept.len() - stride
    } else {
        0
    };
    let mut record: Vec<i64> = Vec::new();
    let mut i: usize = from;
    while i < kept.len()
        invariant
            from <= i <= kept.len(),
            record@ == ids(kept@.subrange(from as int, i as int)),
        decreases kept.len() - i,
    {
        record.push(kept[i].id);
        i += 1;
    }
    let mut removed = removed;
    record.append(&mut removed);
    record
}

/// Shortens `first` and `second` until together they hold at most `room`
/// tokens, as `strategy` directs, and records what was removed.
///
/// Fails with `TooLong` where the budget is exceeded and the strategy is
/// `DoNotTruncate`, and with `CannotShrink` where the one sequence that
/// the strategy shortens has fewer tokens than must leave.
pub fn truncate(
    first: Vec<Token>,
    second: Option<Vec<Token>>,
    room: usize,
    strategy: TruncationStrategy,
    stride: usize,
) -> (outcome: Result<Truncated, TruncationError>)
    ensures
        truncation_view(outcome) == truncated(
            first@,
            seq_of(second),
            room as nat,
            strategy,
            stride as nat,
        ),
{
    let ghost first_before = first@;
    let ghost second_before = seq_of(second);
    let ghost other_before = or_empty(second_before);
    let first_len = first.len();
    let second_len = match &second {
        Some(s) => s.len(),
        None => 0,
    };
    if first_len <= room && second_len <= room - first_len {
        return Ok(
            Truncated { first, second, overflowing_tokens: Vec::new(), num_truncated_tokens: 0 },
        );
    }
    let ghost count = excess(first_before.len(), other_before.len(), room as nat);
    match strategy {
        TruncationStrategy::DoNotTruncate => Err(TruncationError::TooLong),
        TruncationStrategy::LongestFirst => {
            let paired = second.is_some();
            let mut first = first;
            let mut other: Vec<Token> = match second {
                Some(s) => s,
                None => Vec::new(),
            };
            let mut removed: Vec<i64> = Vec::new();
            while first.len() > room || other.len() > room - first.len()
                invariant
                    longest_first(first_before, other_before, count) == ({
                        let rest = longest_first(
                            first@,
                            other@,
                            excess(first@.len(), other@.len(), room as nat),
                        );
                        (rest.0, rest.1, removed@ + rest.2)
                    }),
                    !paired ==> other@.len() == 0,
                decreases first.len() + other.len(),
            {
                if first.len() >= other.len() {
                    let token = first.pop().unwrap();
                    removed.push(token.id);
                } else {
                    let token = other.pop().unwrap();
                    removed.push(token.id);
                }
            }
            let num_truncated_tokens = removed.len();
            proof {
                lemma_longest_first_count(first_before, other_before, count);
            }
            let overflowing_tokens = with_context(&first, stride, removed);
            Ok(
                Truncated {
                    first,
                    second: if paired {
                        Some(other)
                    } else {
                        None
                    },
                    overflowing_tokens,
                    num_truncated_tokens,
                },
            )
        },
        TruncationStrategy::OnlyFirst => {
            if second_len > room {
                return Err(TruncationError::CannotShrink);
            }
            let mut first = first;
            let mut removed: Vec<i64> = Vec::new();
            let num_truncated_tokens = first_len - (room - second_len);
            cut_tail(&mut first, num_truncated_tokens, &mut removed);
            let overflowing_tokens = with_context(&first, stride, removed);
            Ok(Truncated { first, second, overflowing_tokens, num_truncated_tokens })
        },
        TruncationStrategy::OnlySecond => {
            if first_len > room {
                return Err(TruncationError::CannotShrink);
            }
            match second {
                Some(s) => {
                    let mut other = s;
                    let mut removed: Vec<i64> = Vec::new();
                    let num_truncated_tokens = second_len - (room - first_len);
                    cut_tail(&mut other, num_truncated_tokens, &mut removed);
                    let overflowing_tokens = with_context(&other, stride, removed);
                    Ok(
                        Truncated {
                            first,
                            second: Some(other),
                            overflowing_tokens,
                            num_truncated_tokens,
                        },
                    )
                },
                None => Err(TruncationError::CannotShrink),
            }
        },
    }
}

/// Removing `count` tokens of which there are enough removes `count`
/// tokens: the record has `count` ids and the sequences lose as many,
/// neither of them growing.
pub proof fn lemma_longest_first_count(first: Seq<Token>, second: Seq<Token>, count: nat)
    requires
        count <= first.len() + second.len(),
    ensures
        longest_first(first, second, count).2.len() == count,
        longest_first(first, second, count).0.len() <= first.len(),
        longest_first(first, second, count).1.len() <= second.len(),
        longest_first(first, second, count).0.len() + longest_first(first, second, count).1.len()
            + count == first.len() + second.len(),
    decreases count,
{
    if count > 0 {
        if first.len() >= second.len() {
            lemma_longest_first_count(first.drop_last(), second, (count - 1) as nat);
        } else {
            lemma_longest_first_count(first, second.drop_last(), (count - 1) as nat);
        }
    }
}

/// What truncation leaves is within its budget, and it removes as many
/// tokens as it counts.
pub proof fn lemma_truncated_fits(
    first: Seq<Token>,
    second: Option<Seq<Token>>,
    room: nat,
    strategy: TruncationStrategy,
    stride: nat,
)
    ensures
        truncated(first, second, room, strategy, stride) matches Ok(t) ==> {
            &&& t.first.len() + or_empty(t.second).len() <= room
            &&& t.first.len() + or_empty(t.second).len() + t.num_truncated_tokens == first.len()
                + or_empty(second).len()
            &&& t.second is Some <==> second is Some
            &&& t.overflowing_tokens.len() == if t.num_truncated_tokens == 0 {
                0
            } else {
                context(
                    if strategy == TruncationStrategy::OnlySecond {
                        or_empty(t.second)
                    } else {
                        t.first
                    },
                    stride,
                ).len() + t.num_truncated_tokens
            }
        },
{
    let other = or_empty(second);
    let count = excess(first.len(), other.len(), room);
    if count > 0 && strategy == TruncationStrategy::LongestFirst {
        lemma_longest_first_count(first, other, count);
    }
}

} // verus!
