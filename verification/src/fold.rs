//! Folding of characters: lower-casing and the stripping of accents.

use unicode_normalization::UnicodeNormalization;
use vstd::prelude::*;

verus! {

/// The lowercase mapping of `c` in the Unicode tables of the standard
/// library: one character or more.
pub uninterp spec fn lowercase_of(c: char) -> Seq<char>;

/// The canonical decomposition of `c`, in Unicode Normalization Form D, in
/// the Unicode tables of `unicode_normalization`.
pub uninterp spec fn decomposition_of(c: char) -> Seq<char>;

/// Whether `c` is a combining mark (`General_Category=Mark`) in the
/// Unicode tables of `unicode_normalization`.
pub uninterp spec fn combining_mark(c: char) -> bool;

/// Calls `char::to_lowercase`. Trusted: that the characters it yields are
/// the same for the same `c`, so that they are `lowercase_of(c)`.
#[verifier::external_body]
pub(crate) fn to_lowercase(c: char) -> (lower: Vec<char>)
    ensures
        lower@ == lowercase_of(c),
{
    c.to_lowercase().collect()
}

/// Calls `UnicodeNormalization::nfd` of `unicode_normalization` on one
/// character. Trusted: that the characters it yields are the same for the
/// same `c`, so that they are `decomposition_of(c)`.
#[verifier::external_body]
pub(crate) fn decompose(c: char) -> (parts: Vec<char>)
    ensures
        parts@ == decomposition_of(c),
{
    c.nfd().collect()
}

/// Calls `unicode_normalization::char::is_combining_mark`. Trusted: that
/// its answer is the same for the same `c`, so that it is
/// `combining_mark(c)`.
#[verifier::external_body]
pub(crate) fn is_combining_mark(c: char) -> (mark: bool)
    ensures
        mark == combining_mark(c),
{
    unicode_normalization::char::is_combining_mark(c)
}

/// The characters of `s` that are no combining marks.
pub open spec fn unmarked(s: Seq<char>) -> Seq<char>
    decreases s.len(),
{
    if s.len() == 0 {
        Seq::empty()
    } else if combining_mark(s.last()) {
        unmarked(s.drop_last())
    } else {
        unmarked(s.drop_last()).push(s.last())
    }
}

/// The characters of `s` without their accents: each one decomposed, and
/// the combining marks left out.
pub open spec fn stripped(s: Seq<char>) -> Seq<char>
    decreases s.len(),
{
    if s.len() == 0 {
        Seq::empty()
    } else {
        stripped(s.drop_last()) + unmarked(decomposition_of(s.last()))
    }
}

/// What stands for the character `c` in the text that is segmented: `c`,
/// lower-cased where `lower_case` is set, and then without accents where
/// `strip_accents` is set. It may be several characters, or none.
pub open spec fn folded(c: char, lower_case: bool, strip_accents: bool) -> Seq<char> {
    let cased = if lower_case {
        lowercase_of(c)
    } else {
        seq![c]
    };
    if strip_accents {
        stripped(cased)
    } else {
        cased
    }
}

/// Appends to `out` the characters of `parts` that are no combining marks.
fn push_unmarked(parts: &Vec<char>, out: &mut Vec<char>)
    ensures
        final(out)@ == old(out)@ + unmarked(parts@),
{
    let mut i: usize = 0;
    while i < parts.len()
        invariant
            i <= parts.len(),
            out@ == old(out)@ + unmarked(parts@.take(i as int)),
        decreases parts.len() - i,
    {
        assert(parts@.take(i + 1).drop_last() =~= parts@.take(i as int));
        if !is_combining_mark(parts[i]) {
            out.push(parts[i]);
        }
        i += 1;
    }
    assert(parts@.take(parts.len() as int) =~= parts@);
}

/// Folds one character.
pub fn fold_char(c: char, lower_case: bool, strip_accents: bool) -> (out: Vec<char>)
    ensures
        out@ == folded(c, lower_case, strip_accents),
{
    let cased: Vec<char> = if lower_case {
        to_lowercase(c)
    } else {
        let mut same: Vec<char> = Vec::new();
        same.push(c);
        same
    };
    if !strip_accents {
        return cased;
    }
    let mut out: Vec<char> = Vec::new();
    let mut i: usize = 0;
    while i < cased.len()
        invariant
            i <= cased.len(),
            out@ == stripped(cased@.take(i as int)),
        decreases cased.len() - i,
    {
        assert(cased@.take(i + 1).drop_last() =~= cased@.take(i as int));
        let parts = decompose(cased[i]);
        push_unmarked(&parts, &mut out);
        i += 1;
    }
    assert(cased@.take(cased.len() as int) =~= cased@);
    out
}

} // verus!
