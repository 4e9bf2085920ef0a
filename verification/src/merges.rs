//! The merge-rank table of a byte-pair vocabulary: for an ordered pair of
//! symbols, the priority with which the pair is merged.

use crate::text::{
    chars_of, find, find_char, lemma_find, lemma_find_is, run_end_at, run_len, skip_whitespace,
    split, string_of, trim_start,
};
use vstd::hash_map::StringHashMap;
use vstd::prelude::*;

verus! {

/// An ordered pair of symbols, as the contracts of this module see it.
pub type SymbolPair = (Seq<char>, Seq<char>);

/// The pair that one line of a merge list holds: its first two symbols,
/// where a symbol is a run of characters that are no whitespace, as long
/// as whitespace or the ends of the line allow. A line with fewer than two
/// symbols holds no pair.
pub open spec fn line_pair(line: Seq<char>) -> Option<SymbolPair> {
    let first = trim_start(line);
    let second = trim_start(first.skip(run_len(first)));
    if run_len(first) > 0 && run_len(second) > 0 {
        Some((first.take(run_len(first)), second.take(run_len(second))))
    } else {
        None
    }
}

/// The pairs that `lines` hold, in the order of the lines.
pub open spec fn pairs_of(lines: Seq<Seq<char>>) -> Seq<SymbolPair>
    decreases lines.len(),
{
    if lines.len() == 0 {
        Seq::empty()
    } else {
        match line_pair(lines.last()) {
            Some(pair) => pairs_of(lines.drop_last()).push(pair),
            None => pairs_of(lines.drop_last()),
        }
    }
}

/// The pairs of a merge list: those of its lines after the first, which is
/// a header.
pub open spec fn merge_pairs(text: Seq<char>) -> Seq<SymbolPair> {
    pairs_of(split(text, '\n').skip(1))
}

/// The table that ranks each pair of `pairs` by the position at which it
/// first occurs.
pub open spec fn rank_table(pairs: Seq<SymbolPair>) -> Map<SymbolPair, i64> {
    Map::new(|p: SymbolPair| pairs.contains(p), |p: SymbolPair| find(pairs, p) as i64)
}

/// One more pair at the end of the list is ranked by its position if it is
/// new, and changes nothing if it is not.
pub proof fn lemma_rank_table_push(pairs: Seq<SymbolPair>, pair: SymbolPair)
    ensures
        rank_table(pairs.push(pair)) == if rank_table(pairs).contains_key(pair) {
            rank_table(pairs)
        } else {
            rank_table(pairs).insert(pair, pairs.len() as i64)
        },
{
    let longer = pairs.push(pair);
    assert forall|p: SymbolPair| longer.contains(p) <==> (pairs.contains(p) || p == pair) by {
        if pairs.contains(p) {
            let k = choose|k: int| 0 <= k < pairs.len() && pairs[k] == p;
            assert(longer[k] == p);
        }
        if p == pair {
            assert(longer[pairs.len() as int] == p);
        }
    }
    assert forall|p: SymbolPair| longer.contains(p) implies #[trigger] find(longer, p)
        == if pairs.contains(p) {
        find(pairs, p)
    } else {
        pairs.len() as int
    } by {
        lemma_find(pairs, p);
        let i = find(pairs, p);
        lemma_find_is(longer, p, i);
    }
}

/// Every pair of the table is ranked by the position at which it first
/// occurs in the list, so the ranks are not negative and two pairs never
/// share a rank.
pub proof fn lemma_rank_is_first_position(pairs: Seq<SymbolPair>, pair: SymbolPair)
    requires
        pairs.len() <= i64::MAX,
        rank_table(pairs).contains_key(pair),
    ensures
        0 <= rank_table(pairs)[pair] < pairs.len(),
        pairs[rank_table(pairs)[pair] as int] == pair,
        forall|j: int| 0 <= j < rank_table(pairs)[pair] ==> pairs[j] != pair,
{
    lemma_find(pairs, pair);
}

/// An ordered pair of byte-level symbols.
#[derive(Clone, Debug, PartialEq, Eq, Hash)]
pub struct BpePair {
    pub byte_1: String,
    pub byte_2: String,
}

impl View for BpePair {
    type V = SymbolPair;

    open spec fn view(&self) -> SymbolPair {
        (self.byte_1@, self.byte_2@)
    }
}

/// The ranks of the mergeable pairs. Lower ranks merge earlier; a pair
/// without a rank is never merged.
///
/// The table is indexed in two steps: the first symbol selects a row, the
/// second symbol selects the rank within that row.
pub struct BpePairVocab {
    heads: StringHashMap<usize>,
    rows: Vec<StringHashMap<i64>>,
    count: usize,
    pairs: Ghost<Map<SymbolPair, i64>>,
}

impl View for BpePairVocab {
    type V = Map<SymbolPair, i64>;

    closed spec fn view(&self) -> Map<SymbolPair, i64> {
        self.pairs@
    }
}

/// The ranks that the rows hold under their heads.
spec fn indexed(heads: Map<Seq<char>, usize>, rows: Seq<StringHashMap<i64>>) -> Map<
    SymbolPair,
    i64,
> {
    Map::new(
        |p: SymbolPair| heads.contains_key(p.0) && rows[heads[p.0] as int]@.contains_key(p.1),
        |p: SymbolPair| rows[heads[p.0] as int]@[p.1],
    )
}

/// Reads the pair that the line `chars[from..to]` holds.
pub fn parse_pair(chars: &Vec<char>, from: usize, to: usize) -> (pair: Option<BpePair>)
    requires
        from <= to <= chars.len(),
    ensures
        pair is Some <==> line_pair(chars@.subrange(from as int, to as int)) is Some,
        pair matches Some(p) ==> line_pair(chars@.subrange(from as int, to as int)) == Some(p@),
        pair is Some ==> to - from >= 2,
{
    let first = skip_whitespace(chars, from, to);
    let first_end = run_end_at(chars, first, to);
    let second = skip_whitespace(chars, first_end, to);
    let second_end = run_end_at(chars, second, to);
    proof {
        let rest = chars@.subrange(first as int, to as int);
        assert(rest.skip(first_end - first) =~= chars@.subrange(first_end as int, to as int));
        assert(rest.take(first_end - first) =~= chars@.subrange(first as int, first_end as int));
        assert(chars@.subrange(second as int, to as int).take(second_end - second)
            =~= chars@.subrange(second as int, second_end as int));
    }
    if first == first_end || second == second_end {
        return None;
    }
    Some(
        BpePair {
            byte_1: string_of(chars, first, first_end),
            byte_2: string_of(chars, second, second_end),
        },
    )
}

impl BpePairVocab {
    #[verifier::type_invariant]
    spec fn well_formed(&self) -> bool {
        &&& forall|s: Seq<char>| #[trigger]
            self.heads@.contains_key(s) ==> self.heads@[s] < self.rows@.len()
        &&& forall|s: Seq<char>, t: Seq<char>|
            self.heads@.contains_key(s) && self.heads@.contains_key(t) && #[trigger] self.heads@[s]
                == #[trigger] self.heads@[t] ==> s == t
        &&& self.pairs@ =~= indexed(self.heads@, self.rows@)
        &&& self.pairs@.dom().finite()
        &&& self.count == self.pairs@.len()
    }

    /// The table without any pair.
    pub fn new() -> (table: BpePairVocab)
        ensures
            table@ == Map::<SymbolPair, i64>::empty(),
    {
        BpePairVocab {
            heads: StringHashMap::new(),
            rows: Vec::new(),
            count: 0,
            pairs: Ghost(Map::empty()),
        }
    }

    /// The number of pairs that have a rank.
    pub fn len(&self) -> (n: usize)
        ensures
            n == self@.len(),
            self@.dom().finite(),
    {
        proof {
            use_type_invariant(self);
        }
        self.count
    }

    /// The table in which `pair` has the rank `rank`, whether or not it
    /// had one, and every other pair is as in `self`. A table cannot hold
    /// more pairs than `usize` counts.
    pub fn with_rank(self, pair: BpePair, rank: i64) -> (table: BpePairVocab)
        requires
            self@.contains_key(pair@) || self@.len() < usize::MAX,
        ensures
            table@ == self@.insert(pair@, rank),
    {
        proof {
            use_type_invariant(&self);
        }
        let ghost inserted = self@.insert(pair@, rank);
        let BpePairVocab { mut heads, mut rows, count, pairs } = self;
        let row: usize = match heads.get(pair.byte_1.as_str()) {
            Some(r) => *r,
            None => {
                let r = rows.len();
                rows.push(StringHashMap::new());
                heads.insert(pair.byte_1.clone(), r);
                r
            },
        };
        let known = rows[row].contains_key(pair.byte_2.as_str());
        rows[row].insert(pair.byte_2, rank);
        let count = if known {
            count
        } else {
            count + 1
        };
        BpePairVocab { heads, rows, count, pairs: Ghost(inserted) }
    }

    /// Builds the table from the text of a merge list. The first line is a
    /// header. Each later line that holds a pair gives it the next rank,
    /// counted from 0; a pair that occurs again keeps its first rank.
    pub fn from_text(text: &str) -> (table: BpePairVocab)
        ensures
            table@ == rank_table(merge_pairs(text@)),
            merge_pairs(text@).len() <= i64::MAX,
    {
        let chars = chars_of(text);
        let n = chars.len();
        let mut table = BpePairVocab::new();
        let header_end = find_char(&chars, 0, n, '\n');
        assert(chars@.subrange(0, n as int) =~= text@);
        if header_end == n {
            return table;
        }
        let mut start: usize = header_end + 1;
        let ghost body = text@.skip(start as int);
        assert(split(text@, '\n').skip(1) =~= split(body, '\n'));
        let ghost mut done: Seq<Seq<char>> = Seq::empty();
        let mut rank: i64 = 0;
        let mut more = true;
        while more
            invariant
                chars@ == text@,
                n == chars.len(),
                start <= n,
                more ==> split(body, '\n') == done + split(text@.skip(start as int), '\n'),
                !more ==> split(body, '\n') == done,
                table@ == rank_table(pairs_of(done)),
                table@.dom().finite(),
                table@.len() <= rank,
                rank == pairs_of(done).len(),
                more ==> 2 * rank <= start,
            decreases n - start + if more { 1int } else { 0int },
        {
            let end = find_char(&chars, start, n, '\n');
            let ghost line = text@.subrange(start as int, end as int);
            let ghost rest = text@.skip(start as int);
            proof {
                assert(rest.take(end - start) =~= line);
                if end < n {
                    assert(rest.skip(end - start + 1) =~= text@.skip(end + 1));
                }
                assert(done.push(line).drop_last() =~= done);
                if let Some(pair) = line_pair(line) {
                    lemma_rank_table_push(pairs_of(done), pair);
                }
            }
            match parse_pair(&chars, start, end) {
                Some(pair) => {
                    if table.pair_to_id(pair.byte_1.as_str(), pair.byte_2.as_str()).is_none() {
                        table = table.with_rank(pair, rank);
                    }
                    rank = rank + 1;
                },
                None => {},
            }
            proof {
                done = done.push(line);
            }
            if end == n {
                more = false;
            } else {
                start = end + 1;
            }
        }
        table
    }

    /// The rank of the pair `(byte_1, byte_2)`, if it has one.
    pub fn pair_to_id(&self, byte_1: &str, byte_2: &str) -> (rank: Option<&i64>)
        ensures
            match rank {
                Some(r) => self@.contains_key((byte_1@, byte_2@)) && *r == self@[(byte_1@, byte_2@)],
                None => !self@.contains_key((byte_1@, byte_2@)),
            },
    {
        proof {
            use_type_invariant(self);
        }
        match self.heads.get(byte_1) {
            Some(row) => self.rows[*row].get(byte_2),
            None => None,
        }
    }

    /// The rank of `byte_pair`, if it has one.
    pub fn byte_pair_to_id(&self, byte_pair: &BpePair) -> (rank: Option<&i64>)
        ensures
            match rank {
                Some(r) => self@.contains_key(byte_pair@) && *r == self@[byte_pair@],
                None => !self@.contains_key(byte_pair@),
            },
    {
        self.pair_to_id(byte_pair.byte_1.as_str(), byte_pair.byte_2.as_str())
    }
}

} // verus!
