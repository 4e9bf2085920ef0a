//! The vocabulary: sub-word tokens and their ids, the tokens reserved for
//! structural roles, and the unknown token on which every lookup falls back.

use crate::json::{entries_view, json_object, parse_json_object, Entry};
use std::collections::HashMap;
use vstd::hash_map::StringHashMap;
use vstd::prelude::*;

verus! {

broadcast use vstd::std_specs::hash::group_hash_axioms;

/// Why a vocabulary could not be built.
#[derive(Clone, Copy, Debug, PartialEq, Eq, Structural)]
pub enum VocabError {
    /// The source is not a JSON object of tokens with integer ids.
    Unparseable,
    /// The source does not hold the unknown token.
    MissingUnknownToken,
}

impl VocabError {
    /// A sentence that names the error.
    pub fn message(&self) -> (text: &'static str)
        ensures
            text@ == match *self {
                VocabError::Unparseable => "could not parse vocabulary"@,
                VocabError::MissingUnknownToken => "the unknown token is not in the vocabulary"@,
            },
    {
        match self {
            VocabError::Unparseable => "could not parse vocabulary",
            VocabError::MissingUnknownToken => "the unknown token is not in the vocabulary",
        }
    }
}

/// The failure of a lookup by id: no token has the id.
#[derive(Clone, Copy, Debug, PartialEq, Eq, Structural)]
pub struct LookupError {
    pub id: i64,
}

/// The unknown token of this vocabulary.
pub open spec fn unknown_token() -> Seq<char> {
    "<unk>"@
}

/// The map that holds, for each token of `entries`, the id of the last
/// entry with that token.
pub open spec fn value_map(entries: Seq<Entry>) -> Map<Seq<char>, i64>
    decreases entries.len(),
{
    if entries.len() == 0 {
        Map::empty()
    } else {
        value_map(entries.drop_last()).insert(entries.last().0, entries.last().1)
    }
}

/// The map that holds, for each id that `values` gives to a token of
/// `entries`, the token of the last such entry.
pub open spec fn token_map(entries: Seq<Entry>, values: Map<Seq<char>, i64>) -> Map<
    i64,
    Seq<char>,
>
    decreases entries.len(),
{
    if entries.len() == 0 {
        Map::empty()
    } else {
        let (token, id) = entries.last();
        let earlier = token_map(entries.drop_last(), values);
        if values.contains_key(token) && values[token] == id {
            earlier.insert(id, token)
        } else {
            earlier
        }
    }
}

/// A vocabulary as the contracts see it.
pub struct VocabView {
    /// The id of each token.
    pub values: Map<Seq<char>, i64>,
    /// The id of each token that is reserved for a structural role.
    pub special_values: Map<Seq<char>, i64>,
    /// The token that stands for every string without an id.
    pub unknown: Seq<char>,
    /// The token that a lookup by id gives.
    pub tokens: Map<i64, Seq<char>>,
}

impl VocabView {
    /// The id under which `token` itself is registered, if it is.
    pub open spec fn direct_id(self, token: Seq<char>) -> Option<i64> {
        if self.values.contains_key(token) {
            Some(self.values[token])
        } else if self.special_values.contains_key(token) {
            Some(self.special_values[token])
        } else {
            None
        }
    }

    /// The id of the unknown token.
    pub open spec fn unknown_id(self) -> i64 {
        self.direct_id(self.unknown).unwrap()
    }

    /// The id to which `token` resolves: its own, or else that of the
    /// unknown token.
    pub open spec fn token_id(self, token: Seq<char>) -> i64 {
        match self.direct_id(token) {
            Some(id) => id,
            None => self.unknown_id(),
        }
    }

    /// Whether `token` is registered with the id `id`, among the values or
    /// among the reserved tokens.
    pub open spec fn registers(self, token: Seq<char>, id: i64) -> bool {
        ||| self.values.contains_key(token) && self.values[token] == id
        ||| self.special_values.contains_key(token) && self.special_values[token] == id
    }

    /// What holds of every vocabulary: its unknown token is `<unk>` and
    /// resolves, among the values or among the reserved tokens; and the
    /// lookup by id finds, for every id with which a token is registered,
    /// a token that is registered with it.
    pub open spec fn wf(self) -> bool {
        &&& self.unknown == unknown_token()
        &&& self.direct_id(self.unknown) is Some
        &&& forall|id: i64| #[trigger]
            self.tokens.contains_key(id) ==> self.registers(self.tokens[id], id)
        &&& forall|t: Seq<char>| #[trigger]
            self.values.contains_key(t) ==> self.tokens.contains_key(self.values[t])
        &&& forall|t: Seq<char>| #[trigger]
            self.special_values.contains_key(t) ==> self.tokens.contains_key(
                self.special_values[t],
            )
    }
}

/// No lookup gives a missing id: every token resolves to an id that the
/// lookup by id finds. A token among the values resolves to its id there,
/// another one among the reserved tokens to its id there, and a token that
/// is not registered to the id of `<unk>`.
pub proof fn lemma_unknown_fallback(vocab: VocabView, token: Seq<char>)
    requires
        vocab.wf(),
    ensures
        vocab.tokens.contains_key(vocab.token_id(token)),
        vocab.values.contains_key(token) ==> vocab.token_id(token) == vocab.values[token],
        !vocab.values.contains_key(token) && vocab.special_values.contains_key(token)
            ==> vocab.token_id(token) == vocab.special_values[token],
        !vocab.values.contains_key(token) && !vocab.special_values.contains_key(token)
            ==> vocab.token_id(token) == vocab.token_id(unknown_token()),
        vocab.unknown_id() == vocab.token_id(unknown_token()),
{
}

/// The lookup by id leads back: the token found for an id is registered
/// with that id, and resolves to it unless the values give the token
/// another id.
pub proof fn lemma_id_leads_back(vocab: VocabView, id: i64)
    requires
        vocab.wf(),
        vocab.tokens.contains_key(id),
    ensures
        vocab.registers(vocab.tokens[id], id),
        vocab.values.contains_key(vocab.tokens[id]) ==> vocab.values[vocab.tokens[id]] == id
            ==> vocab.token_id(vocab.tokens[id]) == id,
        !vocab.values.contains_key(vocab.tokens[id]) ==> vocab.token_id(vocab.tokens[id]) == id,
{
}

/// The outcome of building a vocabulary from the entries of its values and
/// the entries of its reserved tokens: the vocabulary of both, or the error
/// that neither holds the unknown token. The lookup by id knows the tokens
/// of both, a reserved token before another token of the same id.
pub open spec fn built(
    entries: Seq<Entry>,
    reserved: Seq<Entry>,
    outcome: Result<CtrlVocab, VocabError>,
) -> bool {
    let values = value_map(entries);
    let special_values = value_map(reserved);
    if values.contains_key(unknown_token()) || special_values.contains_key(unknown_token()) {
        &&& outcome matches Ok(vocab)
        &&& vocab@.values == values
        &&& vocab@.special_values == special_values
        &&& vocab@.unknown == unknown_token()
        &&& vocab@.tokens == token_map(entries, values).union_prefer_right(
            token_map(reserved, special_values),
        )
    } else {
        outcome == Err::<CtrlVocab, VocabError>(VocabError::MissingUnknownToken)
    }
}

/// The outcome of building a vocabulary from the entries of its values
/// alone: the vocabulary in which the unknown token is reserved with the id
/// that the values give it, or the error that the values lack it.
pub open spec fn built_from(entries: Seq<Entry>, outcome: Result<CtrlVocab, VocabError>) -> bool {
    let values = value_map(entries);
    if values.contains_key(unknown_token()) {
        built(entries, seq![(unknown_token(), values[unknown_token()])], outcome)
    } else {
        outcome == Err::<CtrlVocab, VocabError>(VocabError::MissingUnknownToken)
    }
}

/// A token has the id of its last entry.
pub proof fn lemma_value_map_last(entries: Seq<Entry>, k: int)
    requires
        0 <= k < entries.len(),
        forall|j: int| k < j < entries.len() ==> entries[j].0 != entries[k].0,
    ensures
        value_map(entries).contains_key(entries[k].0),
        value_map(entries)[entries[k].0] == entries[k].1,
    decreases entries.len(),
{
    if k + 1 < entries.len() {
        lemma_value_map_last(entries.drop_last(), k);
    }
}

/// Only the tokens of entries have ids: every token of
/// `value_map(entries)` stands in an entry with its id.
pub proof fn lemma_value_map_entry(entries: Seq<Entry>, token: Seq<char>)
    requires
        value_map(entries).contains_key(token),
    ensures
        exists|k: int| 0 <= k < entries.len() && #[trigger] entries[k] == (
            token,
            value_map(entries)[token],
        ),
    decreases entries.len(),
{
    if entries.last().0 != token {
        lemma_value_map_entry(entries.drop_last(), token);
    }
}

/// `token_map` is an inverse of `values` on the ids it holds, and holds the
/// id of every entry that agrees with `values`.
proof fn lemma_token_map(entries: Seq<Entry>, values: Map<Seq<char>, i64>)
    ensures
        forall|id: i64| #[trigger]
            token_map(entries, values).contains_key(id) ==> values.contains_key(
                token_map(entries, values)[id],
            ) && values[token_map(entries, values)[id]] == id,
        forall|k: int|
            0 <= k < entries.len() && values.contains_key((#[trigger] entries[k]).0)
                && values[entries[k].0] == entries[k].1 ==> token_map(
                entries,
                values,
            ).contains_key(entries[k].1),
    decreases entries.len(),
{
    if entries.len() > 0 {
        let shorter = entries.drop_last();
        let last = entries.last();
        lemma_token_map(shorter, values);
        assert(token_map(entries, values) == if values.contains_key(last.0) && values[last.0]
            == last.1 {
            token_map(shorter, values).insert(last.1, last.0)
        } else {
            token_map(shorter, values)
        });
        assert forall|k: int|
            0 <= k < entries.len() && values.contains_key((#[trigger] entries[k]).0)
                && values[entries[k].0] == entries[k].1 implies token_map(
            entries,
            values,
        ).contains_key(entries[k].1) by {
            if k < shorter.len() {
                assert(shorter[k] == entries[k]);
            }
        }
    }
}

/// The tokens that an index by id holds, as the contracts see them.
pub open spec fn tokens_of(indices: Map<i64, String>) -> Map<i64, Seq<char>> {
    Map::new(|id: i64| indices.contains_key(id), |id: i64| indices[id]@)
}

/// The vocabulary of the CTRL model: tokens with their ids, read from a
/// JSON object, with `<unk>` as the unknown token.
pub struct CtrlVocab {
    values: StringHashMap<i64>,
    unknown_value: &'static str,
    special_values: StringHashMap<i64>,
    indices: HashMap<i64, String>,
}

impl View for CtrlVocab {
    type V = VocabView;

    closed spec fn view(&self) -> VocabView {
        VocabView {
            values: self.values@,
            special_values: self.special_values@,
            unknown: self.unknown_value@,
            tokens: tokens_of(self.indices@),
        }
    }
}

impl CtrlVocab {
    #[verifier::type_invariant]
    spec fn well_formed(&self) -> bool {
        self@.wf()
    }

    /// The unknown token.
    pub fn unknown_value() -> (token: &'static str)
        ensures
            token@ == unknown_token(),
    {
        "<unk>"
    }

    /// The id of each token.
    pub fn values(&self) -> (values: &StringHashMap<i64>)
        ensures
            values@ == self@.values,
            self@.wf(),
    {
        proof {
            use_type_invariant(self);
        }
        &self.values
    }

    /// The id of each reserved token.
    pub fn special_values(&self) -> (special_values: &StringHashMap<i64>)
        ensures
            special_values@ == self@.special_values,
            self@.wf(),
    {
        proof {
            use_type_invariant(self);
        }
        &self.special_values
    }

    /// The map of `entries`, in which each token has the id of its last
    /// entry.
    fn collect(entries: &Vec<(String, i64)>) -> (values: StringHashMap<i64>)
        ensures
            values@ == value_map(entries_view(entries@)),
    {
        let ghost all = entries_view(entries@);
        let mut values: StringHashMap<i64> = StringHashMap::new();
        let mut i: usize = 0;
        while i < entries.len()
            invariant
                i <= entries.len(),
                all == entries_view(entries@),
                values@ == value_map(all.take(i as int)),
            decreases entries.len() - i,
        {
            values.insert(entries[i].0.clone(), entries[i].1);
            proof {
                assert(all.take(i + 1).drop_last() =~= all.take(i as int));
            }
            i += 1;
        }
        assert(all.take(entries.len() as int) =~= all);
        values
    }

    /// Enters into `indices`, for each entry that `values` agrees with, the
    /// token under its id.
    fn index(
        entries: &Vec<(String, i64)>,
        values: &StringHashMap<i64>,
        indices: &mut HashMap<i64, String>,
    )
        ensures
            tokens_of(final(indices)@) == tokens_of(old(indices)@).union_prefer_right(
                token_map(entries_view(entries@), values@),
            ),
    {
        let ghost all = entries_view(entries@);
        let ghost before = tokens_of(indices@);
        let mut i: usize = 0;
        while i < entries.len()
            invariant
                i <= entries.len(),
                all == entries_view(entries@),
                tokens_of(indices@) == before.union_prefer_right(
                    token_map(all.take(i as int), values@),
                ),
            decreases entries.len() - i,
        {
            let agrees = match values.get(entries[i].0.as_str()) {
                Some(id) => *id == entries[i].1,
                None => false,
            };
            let ghost held = tokens_of(indices@);
            if agrees {
                indices.insert(entries[i].1, entries[i].0.clone());
                assert(tokens_of(indices@) =~= held.insert(all[i as int].1, all[i as int].0));
            }
            proof {
                let earlier = token_map(all.take(i as int), values@);
                let last = all[i as int];
                assert(all.take(i + 1).drop_last() =~= all.take(i as int));
                assert(all.take(i + 1).last() == last);
                assert(token_map(all.take(i + 1), values@) == if agrees {
                    earlier.insert(last.1, last.0)
                } else {
                    earlier
                });
                assert(tokens_of(indices@) =~= before.union_prefer_right(
                    token_map(all.take(i + 1), values@),
                ));
            }
            i += 1;
        }
        assert(all.take(entries.len() as int) =~= all);
    }

    /// Builds the vocabulary in which each token of `entries` has the id of
    /// its last entry, and each token of `reserved` is reserved with the id
    /// of its last entry there. Fails where neither holds the unknown
    /// token.
    pub fn with_reserved(entries: Vec<(String, i64)>, reserved: Vec<(String, i64)>) -> (outcome:
        Result<CtrlVocab, VocabError>)
        ensures
            built(entries_view(entries@), entries_view(reserved@), outcome),
            outcome matches Ok(vocab) ==> vocab@.wf(),
    {
        let values = CtrlVocab::collect(&entries);
        let special_values = CtrlVocab::collect(&reserved);
        let unknown_value = CtrlVocab::unknown_value();
        if !values.contains_key(unknown_value) && !special_values.contains_key(unknown_value) {
            return Err(VocabError::MissingUnknownToken);
        }
        let mut indices: HashMap<i64, String> = HashMap::new();
        assert(tokens_of(indices@) =~= Map::<i64, Seq<char>>::empty());
        CtrlVocab::index(&entries, &values, &mut indices);
        CtrlVocab::index(&reserved, &special_values, &mut indices);
        proof {
            let all = entries_view(entries@);
            let kept = entries_view(reserved@);
            let left = token_map(all, values@);
            let right = token_map(kept, special_values@);
            assert(tokens_of(indices@) =~= left.union_prefer_right(right));
            lemma_token_map(all, values@);
            lemma_token_map(kept, special_values@);
            assert forall|t: Seq<char>| #[trigger] values@.contains_key(t) implies left.contains_key(
                values@[t],
            ) by {
                lemma_value_map_entry(all, t);
            }
            assert forall|t: Seq<char>| #[trigger]
                special_values@.contains_key(t) implies right.contains_key(special_values@[t]) by {
                lemma_value_map_entry(kept, t);
            }
        }
        Ok(CtrlVocab { values, unknown_value, special_values, indices })
    }

    /// Builds the vocabulary in which each token of `entries` has the id of
    /// its last entry, and the unknown token is reserved with its id. Fails
    /// where no entry holds the unknown token.
    pub fn from_entries(entries: Vec<(String, i64)>) -> (outcome: Result<CtrlVocab, VocabError>)
        ensures
            built_from(entries_view(entries@), outcome),
            outcome matches Ok(vocab) ==> vocab@.wf(),
    {
        let ghost all = entries_view(entries@);
        let unknown = CtrlVocab::unknown_value().to_owned();
        let mut found: Option<i64> = None;
        let mut i: usize = 0;
        while i < entries.len()
            invariant
                i <= entries.len(),
                all == entries_view(entries@),
                unknown@ == unknown_token(),
                match found {
                    Some(id) => value_map(all.take(i as int)).contains_key(unknown_token())
                        && value_map(all.take(i as int))[unknown_token()] == id,
                    None => !value_map(all.take(i as int)).contains_key(unknown_token()),
                },
            decreases entries.len() - i,
        {
            proof {
                assert(all.take(i + 1).drop_last() =~= all.take(i as int));
            }
            if entries[i].0 == unknown {
                found = Some(entries[i].1);
            }
            i += 1;
        }
        assert(all.take(entries.len() as int) =~= all);
        match found {
            Some(id) => {
                let mut reserved: Vec<(String, i64)> = Vec::new();
                reserved.push((unknown, id));
                assert(entries_view(reserved@) =~= seq![(unknown_token(), id)]);
                CtrlVocab::with_reserved(entries, reserved)
            },
            None => Err(VocabError::MissingUnknownToken),
        }
    }

    /// Reads the vocabulary from the bytes of a JSON object whose members
    /// are the tokens with their ids. Fails where the bytes are not such an
    /// object, or hold no member for the unknown token.
    pub fn from_json(bytes: &[u8]) -> (outcome: Result<CtrlVocab, VocabError>)
        ensures
            match json_object(bytes@) {
                Some(entries) => built_from(entries, outcome),
                None => outcome == Err::<CtrlVocab, VocabError>(VocabError::Unparseable),
            },
            outcome matches Ok(vocab) ==> vocab@.wf(),
    {
        match parse_json_object(bytes) {
            Ok(entries) => CtrlVocab::from_entries(entries),
            Err(_) => Err(VocabError::Unparseable),
        }
    }

    /// The id to which `token` resolves: the id among the values, else the
    /// id among the reserved tokens, else the id of the unknown token.
    pub fn token_to_id(&self, token: &str) -> (id: i64)
        ensures
            id == self@.token_id(token@),
            self@.direct_id(token@) is None ==> id == self@.token_id(unknown_token()),
            self@.wf(),
    {
        proof {
            use_type_invariant(self);
        }
        match self.values.get(token) {
            Some(id) => *id,
            None => match self.special_values.get(token) {
                Some(id) => *id,
                None => self.unknown_id(),
            },
        }
    }

    /// The id of the unknown token.
    pub fn unknown_id(&self) -> (id: i64)
        ensures
            id == self@.unknown_id(),
            self@.wf(),
    {
        proof {
            use_type_invariant(self);
        }
        match self.values.get(self.unknown_value) {
            Some(id) => *id,
            None => match self.special_values.get(self.unknown_value) {
                Some(id) => *id,
                None => unreached(),
            },
        }
    }

    /// The token that has the id `id`. Fails where no token has it.
    pub fn id_to_token(&self, id: i64) -> (token: Result<String, LookupError>)
        ensures
            match token {
                Ok(t) => self@.tokens.contains_key(id) && t@ == self@.tokens[id],
                Err(e) => !self@.tokens.contains_key(id) && e.id == id,
            },
            self@.wf(),
    {
        proof {
            use_type_invariant(self);
        }
        match self.indices.get(&id) {
            Some(token) => Ok(token.clone()),
            None => Err(LookupError { id }),
        }
    }
}

} // verus!
