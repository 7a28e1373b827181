//! Building the trainer's tables from a loaded vocabulary: ranks in order,
//! bytes to IDs, single bytes to tokens, and the merges that form each
//! token from two lower ones.
use vstd::prelude::*;
use vstd::relations::{sorted_by, total_ordering};
use ahash::AHashMap;
use crate::maps::{
    bytes_table, bytes_table_get, bytes_table_insert, bytes_table_new, pair_table, pair_table_get,
    pair_table_insert, pair_table_new,
};
use crate::tiktoken::{token_pairs, LoadError};
use crate::trainer::LoadedToken;

verus! {

// ---------------------------------------------------------------------------
// Ranks
// ---------------------------------------------------------------------------

/// The order on ranks.
pub open spec fn rank_le() -> spec_fn(u32, u32) -> bool {
    |x: u32, y: u32| x <= y
}

/// The ranks of the loaded tokens, in file order.
pub open spec fn ranks_of(l: Seq<(Seq<u8>, u32)>) -> Seq<u32> {
    l.map_values(|p: (Seq<u8>, u32)| p.1)
}

/// The ranks of the loaded tokens, smallest first.
pub open spec fn sorted_ranks(l: Seq<(Seq<u8>, u32)>) -> Seq<u32> {
    ranks_of(l).sort_by(rank_le())
}

/// The first position `i` at or after `from` whose rank is not `i`.
pub open spec fn first_gap(s: Seq<u32>, from: int) -> Option<int>
    decreases s.len() - from,
{
    if from < 0 || from >= s.len() {
        None
    } else if s[from] != from {
        Some(from)
    } else {
        first_gap(s, from + 1)
    }
}

/// The error of a vocabulary whose ranks, sorted, are not `0, 1, 2, ...`.
pub open spec fn rank_error(l: Seq<(Seq<u8>, u32)>) -> Option<LoadError> {
    let s = sorted_ranks(l);
    match first_gap(s, 0) {
        Some(i) => Some(LoadError::NonContiguousRanks { expected: i as u32, found: s[i] }),
        None => None,
    }
}

proof fn lemma_rank_le_total()
    ensures
        total_ordering(rank_le()),
{
    let leq = rank_le();
    assert(vstd::relations::reflexive(leq));
    assert(vstd::relations::antisymmetric(leq));
    assert(vstd::relations::transitive(leq));
    assert(vstd::relations::strongly_connected(leq));
}

/// Tokens listed by rank, each at the position of its rank, pass the rank
/// check.
pub proof fn lemma_ranks_in_place(l: Seq<(Seq<u8>, u32)>)
    requires
        forall|i: int| 0 <= i < l.len() ==> (#[trigger] l[i]).1 == i,
    ensures
        rank_error(l) is None,
{
    let s = ranks_of(l);
    lemma_rank_le_total();
    s.lemma_sort_by_ensures(rank_le());
    assert(sorted_by(s, rank_le())) by {
        assert forall|i: int, j: int| 0 <= i < j < s.len() implies #[trigger] (rank_le())(s[i], s[j]) by {
            assert(l[i].1 == i && l[j].1 == j);
        }
    }
    vstd::seq_lib::lemma_sorted_unique(s, sorted_ranks(l), rank_le());
    assert forall|i: int| 0 <= i < s.len() implies s[i] == i by {
        assert(l[i].1 == i);
    }
    lemma_first_gap_none(s, 0);
}

proof fn lemma_first_gap_none(s: Seq<u32>, from: int)
    requires
        0 <= from <= s.len(),
        forall|i: int| from <= i < s.len() ==> s[i] == i,
    ensures
        first_gap(s, from) is None,
    decreases s.len() - from,
{
    if from < s.len() {
        lemma_first_gap_none(s, from + 1);
    }
}

proof fn lemma_first_gap_some(s: Seq<u32>, from: int, g: int)
    requires
        0 <= from <= g < s.len(),
        forall|i: int| from <= i < g ==> s[i] == i,
        s[g] != g,
    ensures
        first_gap(s, from) == Some(g),
    decreases g - from,
{
    if from < g {
        lemma_first_gap_some(s, from + 1, g);
    }
}

/// The tokens of rank `r`, in order.
pub open spec fn with_rank(s: Seq<LoadedToken>, r: u32) -> Seq<LoadedToken> {
    s.filter(|t: LoadedToken| t.rank == r)
}

/// `slice::sort_by_key` with the rank as key: the same tokens, by rank,
/// smallest first; tokens of equal rank keep their order (the sort is
/// stable).
#[verifier::external_body]
fn sort_tokens_by_rank(tokens: &mut Vec<LoadedToken>)
    ensures
        final(tokens)@.to_multiset() == old(tokens)@.to_multiset(),
        final(tokens)@.map_values(|t: LoadedToken| t.rank).to_multiset() == old(tokens)@.map_values(
            |t: LoadedToken| t.rank,
        ).to_multiset(),
        forall|i: int, j: int| 0 <= i < j < final(tokens)@.len() ==> final(tokens)@[i].rank <= final(tokens)@[j].rank,
        forall|r: u32| #[trigger] with_rank(final(tokens)@, r) == with_rank(old(tokens)@, r),
{
    tokens.sort_by_key(|t| t.rank);
}

/// Sorts the loaded tokens by rank and checks that the ranks are then
/// exactly `0, 1, 2, ...`; the error names the first position that breaks
/// this.
pub fn sort_and_check_ranks(loaded: Vec<LoadedToken>) -> (r: Result<Vec<LoadedToken>, LoadError>)
    ensures
        r is Ok <==> rank_error(token_pairs(loaded@)) is None,
        r matches Err(e) ==> rank_error(token_pairs(loaded@)) == Some(e),
        r matches Ok(sorted) ==> {
            &&& sorted@.len() == loaded@.len()
            &&& sorted@.to_multiset() == loaded@.to_multiset()
            &&& forall|i: int| 0 <= i < sorted@.len() ==> (#[trigger] sorted@[i]).rank == i
        },
{
    let ghost l = token_pairs(loaded@);
    let ghost before = loaded@;
    let mut sorted = loaded;
    sort_tokens_by_rank(&mut sorted);
    let ghost s = sorted@.map_values(|t: LoadedToken| t.rank);
    proof {
        lemma_rank_le_total();
        assert(ranks_of(l) =~= before.map_values(|t: LoadedToken| t.rank));
        ranks_of(l).lemma_sort_by_ensures(rank_le());
        assert(sorted_by(s, rank_le())) by {
            assert forall|i: int, j: int| 0 <= i < j < s.len() implies #[trigger] (rank_le())(s[i], s[j]) by {
                assert(sorted@[i].rank <= sorted@[j].rank);
            }
        }
        vstd::seq_lib::lemma_sorted_unique(s, sorted_ranks(l), rank_le());
        assert(s == sorted_ranks(l));
        broadcast use vstd::seq_lib::group_to_multiset_ensures;
        assert(sorted@.len() == before.len()) by {
            assert(sorted@.to_multiset().len() == before.to_multiset().len());
        }
    }
    let mut i: usize = 0;
    while i < sorted.len()
        invariant
            i <= sorted@.len(),
            s == sorted@.map_values(|t: LoadedToken| t.rank),
            s == sorted_ranks(l),
            l == token_pairs(loaded@),
            sorted@.len() == loaded@.len(),
            sorted@.to_multiset() == loaded@.to_multiset(),
            forall|j: int| 0 <= j < i ==> (#[trigger] sorted@[j]).rank == j,
        decreases sorted@.len() - i,
    {
        if sorted[i].rank as usize != i {
            proof {
                assert forall|j: int| 0 <= j < i implies s[j] == j by {
                    assert(sorted@[j].rank == j);
                }
                lemma_first_gap_some(s, 0, i as int);
            }
            let found = sorted[i].rank;
            proof {
                assert(s[i as int] == found);
                assert(rank_error(l) == Some(LoadError::NonContiguousRanks { expected: i as u32, found }));
            }
            return Err(LoadError::NonContiguousRanks { expected: i as u32, found });
        }
        i = i + 1;
    }
    proof {
        assert forall|j: int| 0 <= j < s.len() implies s[j] == j by {
            assert(sorted@[j].rank == j);
        }
        lemma_first_gap_none(s, 0);
    }
    Ok(sorted)
}

// ---------------------------------------------------------------------------
// Bytes to IDs
// ---------------------------------------------------------------------------

/// The table made by entering each token's bytes and rank in order: a later
/// token with the same bytes replaces an earlier one.
pub open spec fn rank_table(l: Seq<(Seq<u8>, u32)>) -> Map<Seq<u8>, u32>
    decreases l.len(),
{
    if l.len() == 0 {
        Map::empty()
    } else {
        rank_table(l.drop_last()).insert(l.last().0, l.last().1)
    }
}

/// Every key of the table is the bytes of a token with that rank, and the
/// bytes of every token are a key.
pub proof fn lemma_rank_table_entries(l: Seq<(Seq<u8>, u32)>)
    ensures
        forall|key: Seq<u8>| #[trigger] rank_table(l).contains_key(key) ==> exists|j: int|
            0 <= j < l.len() && l[j] == (key, rank_table(l)[key]),
        forall|j: int| 0 <= j < l.len() ==> rank_table(l).contains_key(#[trigger] l[j].0),
    decreases l.len(),
{
    if l.len() > 0 {
        let prev = l.drop_last();
        lemma_rank_table_entries(prev);
        assert forall|key: Seq<u8>| #[trigger] rank_table(l).contains_key(key) implies exists|j: int|
            0 <= j < l.len() && l[j] == (key, rank_table(l)[key]) by {
            if key == l.last().0 {
                assert(l[l.len() - 1] == (key, rank_table(l)[key]));
            } else {
                assert(rank_table(prev).contains_key(key));
                let j = choose|j: int| 0 <= j < prev.len() && prev[j] == (key, rank_table(prev)[key]);
                assert(l[j] == prev[j]);
            }
        }
        assert forall|j: int| 0 <= j < l.len() implies rank_table(l).contains_key(#[trigger] l[j].0) by {
            if j < l.len() - 1 {
                assert(l[j] == prev[j]);
                assert(rank_table(prev).contains_key(prev[j].0));
            }
        }
    }
}

/// Enters each token's bytes under its rank, in order.
pub fn index_by_bytes(tokens: &Vec<LoadedToken>) -> (m: AHashMap<Vec<u8>, u32>)
    ensures
        bytes_table(m) == rank_table(token_pairs(tokens@)),
{
    let mut m = bytes_table_new();
    let mut i: usize = 0;
    while i < tokens.len()
        invariant
            i <= tokens@.len(),
            bytes_table(m) == rank_table(token_pairs(tokens@.take(i as int))),
        decreases tokens@.len() - i,
    {
        let key = tokens[i].bytes.clone();
        proof {
            assert(key@ =~= tokens@[i as int].bytes@);
            assert(token_pairs(tokens@.take(i + 1)).drop_last() =~= token_pairs(tokens@.take(i as int)));
            assert(token_pairs(tokens@.take(i + 1)).last() == (key@, tokens@[i as int].rank));
        }
        bytes_table_insert(&mut m, key, tokens[i].rank);
        i = i + 1;
    }
    proof {
        assert(tokens@.take(tokens@.len() as int) =~= tokens@);
    }
    m
}

/// The token of each single byte: the ID of that one-byte token, or the
/// byte's own value when the vocabulary lacks it.
pub open spec fn byte_map_of(table: Map<Seq<u8>, u32>) -> Seq<u32> {
    Seq::new(
        256,
        |b: int| if table.contains_key(seq![b as u8]) { table[seq![b as u8]] } else { b as u32 },
    )
}

/// The token of each single byte, looked up in the vocabulary.
pub fn byte_to_token_table(m: &AHashMap<Vec<u8>, u32>) -> (r: [u32; 256])
    ensures
        r@ == byte_map_of(bytes_table(*m)),
{
    let mut table = [0u32; 256];
    let mut b: usize = 0;
    while b < 256
        invariant
            b <= 256,
            table@.len() == 256,
            forall|c: int| 0 <= c < b ==> table@[c] == #[trigger] byte_map_of(bytes_table(*m))[c],
        decreases 256 - b,
    {
        let mut key: Vec<u8> = Vec::new();
        key.push(b as u8);
        proof {
            assert(key@ =~= seq![b as u8]);
        }
        let id = match bytes_table_get(m, key.as_slice()) {
            Some(id) => id,
            None => b as u32,
        };
        table[b] = id;
        b = b + 1;
    }
    proof {
        assert(table@ =~= byte_map_of(bytes_table(*m)));
    }
    table
}

// ---------------------------------------------------------------------------
// Merges that form each token
// ---------------------------------------------------------------------------

/// Splitting token `r` after `k` bytes gives two tokens of the table, both
/// of lower ID, forming the pair `p`.
pub open spec fn split_at_pair(
    base: Seq<Seq<u8>>,
    table: Map<Seq<u8>, u32>,
    r: int,
    k: int,
    p: (u32, u32),
) -> bool {
    &&& 0 <= r < base.len()
    &&& 1 <= k < base[r].len()
    &&& table.contains_key(base[r].take(k))
    &&& table.contains_key(base[r].skip(k))
    &&& p.0 == table[base[r].take(k)]
    &&& p.1 == table[base[r].skip(k)]
    &&& p.0 < r
    &&& p.1 < r
}

/// Some split of token `r` forms the pair `p`.
pub open spec fn splits_into(base: Seq<Seq<u8>>, table: Map<Seq<u8>, u32>, r: int, p: (u32, u32)) -> bool {
    exists|k: int| split_at_pair(base, table, r, k, p)
}

/// The merge table of a loaded vocabulary: every pair of lower tokens whose
/// bytes join into the bytes of a token, mapped to the lowest such token.
pub open spec fn is_split_table(m: Map<(u32, u32), u32>, base: Seq<Seq<u8>>, table: Map<Seq<u8>, u32>) -> bool {
    &&& forall|p: (u32, u32)| #[trigger] m.contains_key(p) <==> exists|r: int| 0 <= r < base.len() && #[trigger] splits_into(base, table, r, p)
    &&& forall|p: (u32, u32)| #[trigger] m.contains_key(p) ==> {
        &&& m[p] < base.len()
        &&& splits_into(base, table, m[p] as int, p)
        &&& forall|r: int| 0 <= r < m[p] ==> !#[trigger] splits_into(base, table, r, p)
    }
}

/// The bytes of each token.
pub open spec fn token_bytes_of(tokens: Seq<LoadedToken>) -> Seq<Seq<u8>> {
    tokens.map_values(|t: LoadedToken| t.bytes@)
}

/// Builds the merge table of a vocabulary whose tokens are in rank order:
/// for each token, every way to split it into two lower tokens of the
/// table; a pair keeps the first (lowest) token it was found for.
pub fn build_pair_to_id(loaded_tokens: &[LoadedToken], bytes_to_id: &AHashMap<Vec<u8>, u32>) -> (m: AHashMap<(u32, u32), u32>)
    requires
        forall|i: int| 0 <= i < loaded_tokens@.len() ==> (#[trigger] loaded_tokens@[i]).rank == i,
    ensures
        is_split_table(pair_table(m), token_bytes_of(loaded_tokens@), bytes_table(*bytes_to_id)),
{
    let ghost base = token_bytes_of(loaded_tokens@);
    let ghost table = bytes_table(*bytes_to_id);
    let mut pair_to_id = pair_table_new();
    let mut r: usize = 0;
    while r < loaded_tokens.len()
        invariant
            r <= loaded_tokens@.len(),
            base == token_bytes_of(loaded_tokens@),
            table == bytes_table(*bytes_to_id),
            forall|i: int| 0 <= i < loaded_tokens@.len() ==> (#[trigger] loaded_tokens@[i]).rank == i,
            forall|p: (u32, u32)| #[trigger] pair_table(pair_to_id).contains_key(p) <==> exists|r2: int|
                0 <= r2 < r && #[trigger] splits_into(base, table, r2, p),
            forall|p: (u32, u32)| #[trigger] pair_table(pair_to_id).contains_key(p) ==> {
                &&& pair_table(pair_to_id)[p] < r
                &&& splits_into(base, table, pair_table(pair_to_id)[p] as int, p)
                &&& forall|r2: int| 0 <= r2 < pair_table(pair_to_id)[p] ==> !#[trigger] splits_into(base, table, r2, p)
            },
        decreases loaded_tokens@.len() - r,
    {
        let token = &loaded_tokens[r];
        let len = token.bytes.len();
        let mut split: usize = 1;
        while split < len
            invariant
                1 <= split,
                r < loaded_tokens@.len(),
                len == base[r as int].len(),
                token.bytes@ == base[r as int],
                token.rank == r,
                base == token_bytes_of(loaded_tokens@),
                table == bytes_table(*bytes_to_id),
                forall|p: (u32, u32)| #[trigger] pair_table(pair_to_id).contains_key(p) <==> (exists|r2: int|
                    0 <= r2 < r && #[trigger] splits_into(base, table, r2, p)) || (exists|k: int|
                    1 <= k < split && #[trigger] split_at_pair(base, table, r as int, k, p)),
                forall|p: (u32, u32)| #[trigger] pair_table(pair_to_id).contains_key(p) ==> {
                    &&& pair_table(pair_to_id)[p] <= r
                    &&& splits_into(base, table, pair_table(pair_to_id)[p] as int, p)
                    &&& forall|r2: int| 0 <= r2 < pair_table(pair_to_id)[p] ==> !#[trigger] splits_into(base, table, r2, p)
                },
            decreases len - split,
        {
            let bytes = token.bytes.as_slice();
            let left_bytes = vstd::slice::slice_subrange(bytes, 0, split);
            let right_bytes = vstd::slice::slice_subrange(bytes, split, len);
            proof {
                assert(left_bytes@ =~= base[r as int].take(split as int));
                assert(right_bytes@ =~= base[r as int].skip(split as int));
            }
            let ghost m0 = pair_table(pair_to_id);
            match (bytes_table_get(bytes_to_id, left_bytes), bytes_table_get(bytes_to_id, right_bytes)) {
                (Some(left_id), Some(right_id)) => {
                    if left_id < token.rank && right_id < token.rank {
                        let p = (left_id, right_id);
                        proof {
                            assert(split_at_pair(base, table, r as int, split as int, p));
                        }
                        if pair_table_get(&pair_to_id, p).is_none() {
                            pair_table_insert(&mut pair_to_id, p, token.rank);
                            proof {
                                assert(splits_into(base, table, r as int, p));
                                assert forall|r2: int| 0 <= r2 < r implies !#[trigger] splits_into(base, table, r2, p) by {
                                    if splits_into(base, table, r2, p) {
                                        assert(m0.contains_key(p));
                                    }
                                }
                            }
                        }
                    } else {
                        proof {
                            assert forall|p: (u32, u32)| !#[trigger] split_at_pair(base, table, r as int, split as int, p) by {}
                        }
                    }
                },
                _ => {
                    proof {
                        assert forall|p: (u32, u32)| !#[trigger] split_at_pair(base, table, r as int, split as int, p) by {}
                    }
                },
            }
            split = split + 1;
        }
        proof {
            assert forall|p: (u32, u32)| #[trigger] pair_table(pair_to_id).contains_key(p) <==> exists|r2: int|
                0 <= r2 < r + 1 && #[trigger] splits_into(base, table, r2, p) by {
                if exists|k: int| 1 <= k < split && #[trigger] split_at_pair(base, table, r as int, k, p) {
                    assert(splits_into(base, table, r as int, p));
                }
                if splits_into(base, table, r as int, p) {
                    let k = choose|k: int| split_at_pair(base, table, r as int, k, p);
                    assert(1 <= k < split);
                }
            }
        }
        r = r + 1;
    }
    pair_to_id
}

} // verus!
