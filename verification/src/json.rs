//! Reading a vocabulary from its JSON text, which `serde_json` parses.

use std::collections::BTreeMap;
use vstd::prelude::*;

verus! {

/// The error with which `serde_json` rejects a text.
#[verifier::external_type_specification]
#[verifier::external_body]
pub struct ExJsonError(serde_json::Error);

/// An entry of a vocabulary as the contracts see it: a token and its id.
pub type Entry = (Seq<char>, i64);

/// The entries of `entries` as the contracts see them.
pub open spec fn entries_view(entries: Seq<(String, i64)>) -> Seq<Entry> {
    Seq::new(entries.len(), |i: int| (entries[i].0@, entries[i].1))
}

/// What `serde_json` reads from `bytes` as a JSON object whose values are
/// integers in the range of `i64`: the members it hands out, or nothing
/// where it rejects the bytes.
pub uninterp spec fn json_object(bytes: Seq<u8>) -> Option<Seq<Entry>>;

/// Calls `serde_json::from_slice` for a map from strings to `i64`, ordered
/// by key. Trusted: that the call's outcome depends on the bytes alone, so
/// that it is `json_object` of them. Nothing is claimed about which bytes
/// are accepted or what is read from them.
#[verifier::external_body]
pub(crate) fn parse_json_object(bytes: &[u8]) -> (parsed: Result<
    Vec<(String, i64)>,
    serde_json::Error,
>)
    ensures
        match parsed {
            Ok(entries) => json_object(bytes@) == Some(entries_view(entries@)),
            Err(_) => json_object(bytes@) is None,
        },
{
    let object: BTreeMap<String, i64> = serde_json::from_slice(bytes)?;
    Ok(object.into_iter().collect())
}

} // verus!
