//! The BPE trainer: vocabulary state, merge selection, and the bytes each
//! token stands for.
use vstd::prelude::*;
use ahash::AHashMap;
use crate::chunk::{counts_match, merge_seq, occurrences, occurrences_in};
use crate::config::Config;
use crate::hardcoded::{
    law_base_vocabulary_distinct, base_token_bytes, base_vocab_table, cold_base_bytes, generate_hardcoded_merges, hardcoded_bytes,
    hardcoded_pair_table, law_hardcoded_table_consistent, lemma_token_of_bytes_inverse, table_consistent,
    HardcodedMerge, TRAINED_START,
};
use crate::maps::{
    bytes_table, bytes_table_contains, bytes_table_insert, count_table, count_table_entries,
    pair_table, pair_table_insert,
};
use crate::reservoir::Reservoir;
use crate::tiktoken::{
    encodes_back, format_line, lemma_read_written, line_texts, read_entries, read_tiktoken, string_from_chars,
    tiktoken_line, token_pairs, LoadError,
};
use crate::warm::{
    build_pair_to_id, byte_map_of, byte_to_token_table, index_by_bytes, is_split_table, lemma_rank_table_entries,
    lemma_ranks_in_place, rank_error, rank_table, sort_and_check_ranks, splits_into, split_at_pair,
};

verus! {

/// A trained merge operation.
#[derive(Debug, Clone)]
pub struct TrainedMerge {
    pub left_token: u32,
    pub right_token: u32,
    pub new_token: u32,
}

/// A loaded token from warm start file.
#[derive(Debug, Clone)]
pub struct LoadedToken {
    pub bytes: Vec<u8>,
    pub rank: u32,
}

// ---------------------------------------------------------------------------
// The bytes a token stands for
// ---------------------------------------------------------------------------

/// Bytes of token `t` in a vocabulary whose first `base.len()` tokens are
/// `base` and whose later tokens are the merges `trained`, in order. A token
/// past the end stands for no bytes.
pub open spec fn vocab_bytes(base: Seq<Seq<u8>>, trained: Seq<TrainedMerge>, t: int) -> Seq<u8>
    decreases t,
{
    if t < 0 {
        Seq::empty()
    } else if t < base.len() {
        base[t]
    } else if t - base.len() < trained.len() && trained[t - base.len()].left_token < t
        && trained[t - base.len()].right_token < t {
        vocab_bytes(base, trained, trained[t - base.len()].left_token as int) + vocab_bytes(
            base,
            trained,
            trained[t - base.len()].right_token as int,
        )
    } else {
        Seq::empty()
    }
}

/// The cold-start base vocabulary: the 256 bytes, then the hardcoded merges.
pub open spec fn cold_base(hardcoded: Seq<HardcodedMerge>) -> Seq<Seq<u8>> {
    Seq::new(
        TRAINED_START as nat,
        |t: int| if t < 256 { seq![t as u8] } else { hardcoded[t - 256].bytes@ },
    )
}

/// The warm-start base vocabulary: the loaded tokens, by position.
pub open spec fn warm_base(loaded: Seq<LoadedToken>) -> Seq<Seq<u8>> {
    loaded.map_values(|lt: LoadedToken| lt.bytes@)
}

/// Reconstruction from base `n` terminates without leaving the base: every
/// merge that is reached joins lower tokens.
pub open spec fn reconstructible(n: int, base_ok: spec_fn(int) -> bool, trained: Seq<TrainedMerge>, t: int) -> bool
    decreases t,
{
    if t < 0 {
        false
    } else if t < n {
        base_ok(t)
    } else if t - n < trained.len() {
        &&& trained[t - n].left_token < t
        &&& trained[t - n].right_token < t
        &&& reconstructible(n, base_ok, trained, trained[t - n].left_token as int)
        &&& reconstructible(n, base_ok, trained, trained[t - n].right_token as int)
    } else {
        true
    }
}

/// The bytes of cold-start token `t`, rebuilding trained merges at most
/// `fuel` levels deep: a base byte, a hardcoded merge's bytes, the two
/// halves of a trained merge joined, or no bytes past the trained merges.
/// `None` when `fuel` runs out or a hardcoded token has no entry.
pub open spec fn cold_rebuild(h: Seq<HardcodedMerge>, tr: Seq<TrainedMerge>, t: u32, fuel: nat) -> Option<Seq<u8>>
    decreases fuel,
{
    if fuel == 0 {
        None
    } else if t < 256 {
        Some(seq![t as u8])
    } else if t < TRAINED_START {
        if t - 256 < h.len() {
            Some(h[t - 256].bytes@)
        } else {
            None
        }
    } else if t - TRAINED_START < tr.len() {
        let m = tr[t - TRAINED_START];
        match (
            cold_rebuild(h, tr, m.left_token, (fuel - 1) as nat),
            cold_rebuild(h, tr, m.right_token, (fuel - 1) as nat),
        ) {
            (Some(a), Some(b)) => Some(a + b),
            _ => None,
        }
    } else {
        Some(Seq::empty())
    }
}

/// Rebuilding cold-start token `t` ends: no merge it reaches leads back to
/// itself, and every hardcoded token it reaches exists.
pub open spec fn cold_rebuildable(h: Seq<HardcodedMerge>, tr: Seq<TrainedMerge>, t: u32) -> bool {
    exists|fuel: nat| #[trigger] cold_rebuild(h, tr, t, fuel) is Some
}

/// The bytes cold-start token `t` is rebuilt to.
pub open spec fn cold_bytes(h: Seq<HardcodedMerge>, tr: Seq<TrainedMerge>, t: u32) -> Seq<u8> {
    cold_rebuild(h, tr, t, choose|fuel: nat| #[trigger] cold_rebuild(h, tr, t, fuel) is Some).unwrap()
}

/// More fuel rebuilds the same bytes.
pub proof fn lemma_cold_rebuild_fuel(h: Seq<HardcodedMerge>, tr: Seq<TrainedMerge>, t: u32, fuel: nat, more: nat)
    requires
        cold_rebuild(h, tr, t, fuel) is Some,
        fuel <= more,
    ensures
        cold_rebuild(h, tr, t, more) == cold_rebuild(h, tr, t, fuel),
    decreases fuel,
{
    if t >= TRAINED_START && t - TRAINED_START < tr.len() {
        let m = tr[t - TRAINED_START];
        lemma_cold_rebuild_fuel(h, tr, m.left_token, (fuel - 1) as nat, (more - 1) as nat);
        lemma_cold_rebuild_fuel(h, tr, m.right_token, (fuel - 1) as nat, (more - 1) as nat);
    }
}

/// Any fuel that suffices rebuilds `cold_bytes`.
pub proof fn lemma_cold_bytes(h: Seq<HardcodedMerge>, tr: Seq<TrainedMerge>, t: u32, fuel: nat)
    requires
        cold_rebuild(h, tr, t, fuel) is Some,
    ensures
        cold_rebuildable(h, tr, t),
        cold_bytes(h, tr, t) == cold_rebuild(h, tr, t, fuel).unwrap(),
{
    let f = choose|f: nat| #[trigger] cold_rebuild(h, tr, t, f) is Some;
    if f <= fuel {
        lemma_cold_rebuild_fuel(h, tr, t, f, fuel);
    } else {
        lemma_cold_rebuild_fuel(h, tr, t, fuel, f);
    }
}

/// With the hardcoded merges all present and every trained merge joining
/// lower tokens, rebuilding gives the vocabulary's bytes.
pub proof fn lemma_cold_rebuild_in_order(h: Seq<HardcodedMerge>, tr: Seq<TrainedMerge>, t: u32)
    requires
        h.len() >= TRAINED_START - 256,
        forall|i: int| 0 <= i < tr.len() ==> (#[trigger] tr[i]).left_token < TRAINED_START + i
            && tr[i].right_token < TRAINED_START + i,
    ensures
        cold_rebuild(h, tr, t, (t + 1) as nat) == Some(vocab_bytes(cold_base(h), tr, t as int)),
        cold_rebuildable(h, tr, t),
        cold_bytes(h, tr, t) == vocab_bytes(cold_base(h), tr, t as int),
    decreases t,
{
    let base = cold_base(h);
    if t < 256 {
        assert(base[t as int] == seq![t as u8]);
    } else if t < TRAINED_START {
        assert(base[t as int] == h[t - 256].bytes@);
    } else if t - TRAINED_START < tr.len() {
        let m = tr[t - TRAINED_START];
        lemma_cold_rebuild_in_order(h, tr, m.left_token);
        lemma_cold_rebuild_in_order(h, tr, m.right_token);
        lemma_cold_rebuild_fuel(h, tr, m.left_token, (m.left_token + 1) as nat, t as nat);
        lemma_cold_rebuild_fuel(h, tr, m.right_token, (m.right_token + 1) as nat, t as nat);
    }
    lemma_cold_bytes(h, tr, t, (t + 1) as nat);
}

/// Reconstruct byte sequence for cold start (with hardcoded merges).
fn reconstruct_token_bytes_cold(
    token_id: u32,
    hardcoded_merges: &[HardcodedMerge],
    trained_merges: &[TrainedMerge],
    Ghost(fuel): Ghost<nat>,
) -> (bytes: Vec<u8>)
    requires
        cold_rebuild(hardcoded_merges@, trained_merges@, token_id, fuel) is Some,
    ensures
        bytes@ == cold_rebuild(hardcoded_merges@, trained_merges@, token_id, fuel).unwrap(),
    decreases fuel,
{
    if token_id < 256 {
        let mut v: Vec<u8> = Vec::new();
        v.push(token_id as u8);
        assert(v@ =~= seq![token_id as u8]);
        return v;
    }
    if token_id < TRAINED_START {
        let merge = &hardcoded_merges[(token_id - 256) as usize];
        return merge.bytes.clone();
    }
    let merge_idx = (token_id - TRAINED_START) as usize;
    if merge_idx < trained_merges.len() {
        let merge = &trained_merges[merge_idx];
        let mut bytes = reconstruct_token_bytes_cold(
            merge.left_token,
            hardcoded_merges,
            trained_merges,
            Ghost((fuel - 1) as nat),
        );
        let mut right = reconstruct_token_bytes_cold(
            merge.right_token,
            hardcoded_merges,
            trained_merges,
            Ghost((fuel - 1) as nat),
        );
        bytes.append(&mut right);
        bytes
    } else {
        let v: Vec<u8> = Vec::new();
        assert(v@ =~= Seq::<u8>::empty());
        v
    }
}

/// Reconstruct byte sequence for warm start.
fn reconstruct_token_bytes_warm(
    token_id: u32,
    loaded_tokens: &[LoadedToken],
    trained_merges: &[TrainedMerge],
    base_vocab: u32,
) -> (bytes: Vec<u8>)
    requires
        reconstructible(
            base_vocab as int,
            |t: int| t < loaded_tokens@.len(),
            trained_merges@,
            token_id as int,
        ),
        base_vocab == loaded_tokens@.len(),
    ensures
        bytes@ == vocab_bytes(warm_base(loaded_tokens@), trained_merges@, token_id as int),
    decreases token_id,
{
    if token_id < base_vocab {
        return loaded_tokens[token_id as usize].bytes.clone();
    }
    let merge_idx = (token_id - base_vocab) as usize;
    if merge_idx < trained_merges.len() {
        let merge = &trained_merges[merge_idx];
        let mut bytes = reconstruct_token_bytes_warm(merge.left_token, loaded_tokens, trained_merges, base_vocab);
        let mut right = reconstruct_token_bytes_warm(merge.right_token, loaded_tokens, trained_merges, base_vocab);
        bytes.append(&mut right);
        bytes
    } else {
        Vec::new()
    }
}

/// The bytes of a cold-start token: a base byte, a hardcoded merge, or a
/// trained merge rebuilt from its two halves.
pub fn reconstruct_token_bytes(
    token_id: u32,
    hardcoded_merges: &[HardcodedMerge],
    trained_merges: &[TrainedMerge],
) -> (bytes: Vec<u8>)
    requires
        cold_rebuildable(hardcoded_merges@, trained_merges@, token_id),
    ensures
        bytes@ == cold_bytes(hardcoded_merges@, trained_merges@, token_id),
{
    let ghost fuel = choose|fuel: nat| #[trigger] cold_rebuild(hardcoded_merges@, trained_merges@, token_id, fuel) is Some;
    reconstruct_token_bytes_cold(token_id, hardcoded_merges, trained_merges, Ghost(fuel))
}

// ---------------------------------------------------------------------------
// Display
// ---------------------------------------------------------------------------

/// Upper-case hexadecimal digit of `d` (0..16).
pub open spec fn hex_digit(d: int) -> char {
    if d < 10 { (48 + d) as char } else { (55 + d) as char }
}

/// How one byte is shown: printable ASCII as itself, newline, carriage
/// return and tab as escapes, anything else as `\xHH`.
pub open spec fn display_byte(b: u8) -> Seq<char> {
    if 0x20 <= b < 0x7F {
        seq![b as char]
    } else if b == 10 {
        seq!['\\', 'n']
    } else if b == 13 {
        seq!['\\', 'r']
    } else if b == 9 {
        seq!['\\', 't']
    } else {
        seq!['\\', 'x', hex_digit(b as int / 16), hex_digit(b as int % 16)]
    }
}

/// How a byte string is shown: each byte in turn.
pub open spec fn display_bytes(bytes: Seq<u8>) -> Seq<char>
    decreases bytes.len(),
{
    if bytes.len() == 0 {
        Seq::empty()
    } else {
        display_bytes(bytes.drop_last()) + display_byte(bytes.last())
    }
}

fn hex_char(d: u8) -> (c: char)
    requires
        d < 16,
    ensures
        c == hex_digit(d as int),
{
    if d < 10 { (48 + d) as char } else { (55 + d) as char }
}

/// Format bytes for human-readable display: printable ASCII as-is,
/// non-printable as an escape.
pub fn format_bytes_for_display(bytes: &[u8]) -> (result: String)
    ensures
        result@ == display_bytes(bytes@),
{
    let mut out: Vec<char> = Vec::new();
    let mut i: usize = 0;
    while i < bytes.len()
        invariant
            i <= bytes@.len(),
            out@ == display_bytes(bytes@.take(i as int)),
        decreases bytes@.len() - i,
    {
        let b = bytes[i];
        let ghost before = out@;
        if b >= 0x20 && b < 0x7F {
            out.push(b as char);
        } else if b == 10 {
            out.push('\\');
            out.push('n');
        } else if b == 13 {
            out.push('\\');
            out.push('r');
        } else if b == 9 {
            out.push('\\');
            out.push('t');
        } else {
            out.push('\\');
            out.push('x');
            out.push(hex_char(b / 16));
            out.push(hex_char(b % 16));
        }
        proof {
            assert(bytes@.take(i + 1).drop_last() =~= bytes@.take(i as int));
            assert(out@ =~= before + display_byte(b));
        }
        i = i + 1;
    }
    assert(bytes@.take(bytes@.len() as int) =~= bytes@);
    string_from_chars(&out)
}

// ---------------------------------------------------------------------------
// Choosing a merge
// ---------------------------------------------------------------------------

/// `bytes` is the byte string of none of the first `n` tokens.
pub open spec fn is_new_bytes(base: Seq<Seq<u8>>, trained: Seq<TrainedMerge>, n: int, bytes: Seq<u8>) -> bool {
    forall|t: int| 0 <= t < n ==> #[trigger] vocab_bytes(base, trained, t) != bytes
}

/// Merging `(a, b)` is allowed in a vocabulary of `n` tokens: the pair
/// occurs at least twice and its bytes would be a new token.
pub open spec fn good_merge(
    segs: Seq<Seq<u32>>,
    base: Seq<Seq<u8>>,
    trained: Seq<TrainedMerge>,
    n: int,
    a: u32,
    b: u32,
) -> bool {
    &&& occurrences_in(segs, a, b) >= 2
    &&& is_new_bytes(base, trained, n, vocab_bytes(base, trained, a as int) + vocab_bytes(base, trained, b as int))
}

/// `(a, b)` is an allowed merge that occurs at least as often as any
/// other allowed merge.
pub open spec fn best_merge(
    segs: Seq<Seq<u32>>,
    base: Seq<Seq<u8>>,
    trained: Seq<TrainedMerge>,
    n: int,
    a: u32,
    b: u32,
) -> bool {
    &&& good_merge(segs, base, trained, n, a, b)
    &&& forall|c: u32, d: u32| #[trigger] good_merge(segs, base, trained, n, c, d)
        ==> occurrences_in(segs, c, d) <= occurrences_in(segs, a, b)
}

/// No merge is allowed.
pub open spec fn no_good_merge(segs: Seq<Seq<u32>>, base: Seq<Seq<u8>>, trained: Seq<TrainedMerge>, n: int) -> bool {
    forall|c: u32, d: u32| !#[trigger] good_merge(segs, base, trained, n, c, d)
}

/// Every token of every segment is below `n`.
pub open spec fn tokens_below(segs: Seq<Seq<u32>>, n: int) -> bool {
    forall|k: int, j: int| 0 <= k < segs.len() && 0 <= j < segs[k].len() ==> segs[k][j] < n
}

/// Merges appended later do not change the bytes of earlier tokens.
pub proof fn lemma_vocab_bytes_prefix(base: Seq<Seq<u8>>, trained: Seq<TrainedMerge>, more: Seq<TrainedMerge>, t: int)
    requires
        t < base.len() + trained.len(),
    ensures
        vocab_bytes(base, trained + more, t) == vocab_bytes(base, trained, t),
    decreases t,
{
    let all = trained + more;
    if t >= base.len() && t - base.len() < trained.len() {
        let m = trained[t - base.len()];
        assert(all[t - base.len()] == m);
        if m.left_token < t && m.right_token < t {
            lemma_vocab_bytes_prefix(base, trained, more, m.left_token as int);
            lemma_vocab_bytes_prefix(base, trained, more, m.right_token as int);
        }
    }
}

/// A pair that occurs is made of tokens that occur.
pub proof fn lemma_occurring_pair_below(segs: Seq<Seq<u32>>, n: int, a: u32, b: u32)
    requires
        tokens_below(segs, n),
        occurrences_in(segs, a, b) > 0,
    ensures
        a < n,
        b < n,
    decreases segs.len(),
{
    if occurrences_in(segs.drop_last(), a, b) > 0 {
        assert(tokens_below(segs.drop_last(), n)) by {
            assert forall|k: int, j: int| 0 <= k < segs.drop_last().len() && 0 <= j < segs.drop_last()[k].len() implies segs.drop_last()[k][j] < n by {
                assert(segs.drop_last()[k] == segs[k]);
            }
        }
        lemma_occurring_pair_below(segs.drop_last(), n, a, b);
    } else {
        let s = segs.last();
        assert(segs[segs.len() - 1] == s);
        lemma_occurrence_in_seq(s, a, b);
        let j = choose|j: int| 0 <= j < s.len() - 1 && #[trigger] s[j] == a && s[j + 1] == b;
        assert(s[j] < n && s[j + 1] < n);
    }
}

pub proof fn lemma_occurrence_in_seq(s: Seq<u32>, a: u32, b: u32)
    requires
        occurrences(s, a, b) > 0,
    ensures
        exists|j: int| 0 <= j < s.len() - 1 && #[trigger] s[j] == a && s[j + 1] == b,
    decreases s.len(),
{
    if occurrences(s.drop_last(), a, b) > 0 {
        lemma_occurrence_in_seq(s.drop_last(), a, b);
        let j = choose|j: int| 0 <= j < s.drop_last().len() - 1 && #[trigger] s.drop_last()[j] == a && s.drop_last()[j + 1] == b;
        assert(s[j] == a && s[j + 1] == b);
    } else {
        assert(s[s.len() - 2] == a && s[s.len() - 1] == b);
    }
}

/// Merging keeps every token below `n` when the new token is.
pub proof fn lemma_merge_keeps_below(segs: Seq<Seq<u32>>, n: int, l: u32, r: u32, t: u32)
    requires
        tokens_below(segs, n),
        t < n,
    ensures
        tokens_below(segs.map_values(|s: Seq<u32>| merge_seq(s, l, r, t)), n),
{
    let m = segs.map_values(|s: Seq<u32>| merge_seq(s, l, r, t));
    assert forall|k: int, j: int| 0 <= k < m.len() && 0 <= j < m[k].len() implies m[k][j] < n by {
        lemma_merge_seq_below(segs[k], n, l, r, t);
    }
}

pub proof fn lemma_merge_seq_below(s: Seq<u32>, n: int, l: u32, r: u32, t: u32)
    requires
        forall|j: int| 0 <= j < s.len() ==> s[j] < n,
        t < n,
    ensures
        forall|j: int| 0 <= j < merge_seq(s, l, r, t).len() ==> merge_seq(s, l, r, t)[j] < n,
    decreases s.len(),
{
    let ms = merge_seq(s, l, r, t);
    if s.len() >= 2 {
        if s[0] == l && s[1] == r {
            assert forall|j: int| 0 <= j < s.skip(2).len() implies s.skip(2)[j] < n by {
                assert(s.skip(2)[j] == s[j + 2]);
            }
            lemma_merge_seq_below(s.skip(2), n, l, r, t);
            let rest = merge_seq(s.skip(2), l, r, t);
            assert forall|j: int| 0 <= j < ms.len() implies ms[j] < n by {
                if j > 0 {
                    assert(ms[j] == rest[j - 1]);
                }
            }
        } else {
            assert forall|j: int| 0 <= j < s.skip(1).len() implies s.skip(1)[j] < n by {
                assert(s.skip(1)[j] == s[j + 1]);
            }
            lemma_merge_seq_below(s.skip(1), n, l, r, t);
            let rest = merge_seq(s.skip(1), l, r, t);
            assert forall|j: int| 0 <= j < ms.len() implies ms[j] < n by {
                if j > 0 {
                    assert(ms[j] == rest[j - 1]);
                }
            }
        }
    }
}

// ---------------------------------------------------------------------------
// The trainer
// ---------------------------------------------------------------------------

/// Where the base vocabulary comes from.
enum TrainerMode {
    /// Cold start: the 256 bytes and the hardcoded merges.
    ColdStart { hardcoded_merges: Vec<HardcodedMerge> },
    /// Warm start: loaded from an existing .tiktoken file, by rank.
    WarmStart { loaded_tokens: Vec<LoadedToken> },
}

/// BPE trainer with optional warm start support.
pub struct BpeTrainer {
    config: Config,
    /// Mode: either cold start with hardcoded merges, or warm start from file
    mode: TrainerMode,
    /// Map from byte sequence to token ID
    bytes_to_id: AHashMap<Vec<u8>, u32>,
    /// Map from (left, right) pair to new token ID
    pair_to_id: AHashMap<(u32, u32), u32>,
    /// Map from raw byte value (0-255) to token ID
    byte_to_token: [u32; 256],
    /// Trained merges (filled during training)
    trained_merges: Vec<TrainedMerge>,
    /// Current vocabulary size
    vocab_size: u32,
}

/// Reconstruction reaches only existing tokens when every merge joins
/// lower tokens.
pub proof fn lemma_reconstructible(n: int, base_ok: spec_fn(int) -> bool, trained: Seq<TrainedMerge>, t: int)
    requires
        forall|u: int| 0 <= u < n ==> #[trigger] base_ok(u),
        forall|i: int| 0 <= i < trained.len() ==> (#[trigger] trained[i]).left_token < n + i
            && trained[i].right_token < n + i,
        t >= 0,
    ensures
        reconstructible(n, base_ok, trained, t),
    decreases t,
{
    if t >= n && t - n < trained.len() {
        let m = trained[t - n];
        lemma_reconstructible(n, base_ok, trained, m.left_token as int);
        lemma_reconstructible(n, base_ok, trained, m.right_token as int);
    }
}

impl BpeTrainer {
    /// The base vocabulary, token by token.
    pub closed spec fn base(&self) -> Seq<Seq<u8>> {
        match self.mode {
            TrainerMode::ColdStart { hardcoded_merges } => cold_base(hardcoded_merges@),
            TrainerMode::WarmStart { loaded_tokens } => warm_base(loaded_tokens@),
        }
    }

    /// Whether the base vocabulary is the hardcoded one.
    pub closed spec fn is_cold(&self) -> bool {
        self.mode is ColdStart
    }

    /// The merges trained so far.
    pub closed spec fn trained(&self) -> Seq<TrainedMerge> {
        self.trained_merges@
    }

    /// The current vocabulary size.
    pub closed spec fn vocab(&self) -> int {
        self.vocab_size as int
    }

    /// The byte-to-ID table.
    pub closed spec fn vocab_table(&self) -> Map<Seq<u8>, u32> {
        bytes_table(self.bytes_to_id)
    }

    /// The pair-to-ID table used when loading data.
    pub closed spec fn merge_table(&self) -> Map<(u32, u32), u32> {
        pair_table(self.pair_to_id)
    }

    /// The byte-to-token map used when loading data.
    pub closed spec fn byte_map(&self) -> Seq<u32> {
        self.byte_to_token@
    }

    /// The configuration.
    pub closed spec fn settings(&self) -> Config {
        self.config
    }

    /// The bytes token `t` stands for.
    pub open spec fn token_bytes(&self, t: int) -> Seq<u8> {
        vocab_bytes(self.base(), self.trained(), t)
    }

    /// Consistency of the trainer's tables with its vocabulary.
    pub closed spec fn wf(&self) -> bool {
        let base_len = self.base().len() as int;
        let tr = self.trained_merges@;
        let bt = bytes_table(self.bytes_to_id);
        let pt = pair_table(self.pair_to_id);
        &&& match self.mode {
            TrainerMode::ColdStart { hardcoded_merges } => {
                &&& hardcoded_merges@.len() == 1161
                &&& forall|i: int| 0 <= i < 1161 ==> (#[trigger] hardcoded_merges@[i]).bytes@ == hardcoded_bytes(i)
            },
            TrainerMode::WarmStart { loaded_tokens } => {
                &&& loaded_tokens@.len() <= 0xFFFF_FFFF
                &&& forall|i: int| 0 <= i < loaded_tokens@.len() ==> (#[trigger] loaded_tokens@[i]).rank == i
            },
        }
        &&& self.vocab_size == base_len + tr.len()
        &&& forall|i: int| 0 <= i < tr.len() ==> {
            &&& (#[trigger] tr[i]).new_token == base_len + i
            &&& tr[i].left_token < base_len + i
            &&& tr[i].right_token < base_len + i
        }
        &&& forall|i: int, t: int| 0 <= i < tr.len() && 0 <= t < base_len + i ==> #[trigger] self.token_bytes(t)
            != #[trigger] self.token_bytes(base_len + i)
        &&& forall|t: int| 0 <= t < self.vocab_size ==> bt.contains_key(#[trigger] self.token_bytes(t))
        &&& forall|key: Seq<u8>| #[trigger] bt.contains_key(key) ==> bt[key] < self.vocab_size
            && self.token_bytes(bt[key] as int) == key
        &&& forall|p: (u32, u32)| #[trigger] pt.contains_key(p) ==> {
            &&& p.0 < pt[p]
            &&& p.1 < pt[p]
            &&& pt[p] < self.vocab_size
            &&& self.token_bytes(pt[p] as int) == self.token_bytes(p.0 as int) + self.token_bytes(p.1 as int)
        }
    }

    /// What a well-formed trainer guarantees of its vocabulary.
    pub proof fn lemma_wf_facts(&self)
        requires
            self.wf(),
        ensures
            self.vocab() == self.base().len() + self.trained().len(),
            self.vocab() <= 0xFFFF_FFFF,
            forall|i: int| 0 <= i < self.trained().len() ==> {
                &&& (#[trigger] self.trained()[i]).new_token == self.base().len() + i
                &&& self.trained()[i].left_token < self.base().len() + i
                &&& self.trained()[i].right_token < self.base().len() + i
            },
            forall|bytes: Seq<u8>| is_new_bytes(self.base(), self.trained(), self.vocab(), bytes)
                <==> !#[trigger] self.vocab_table().contains_key(bytes),
            forall|p: (u32, u32)| #[trigger] self.merge_table().contains_key(p) ==> {
                &&& p.0 < self.merge_table()[p]
                &&& p.1 < self.merge_table()[p]
                &&& self.merge_table()[p] < self.vocab()
                &&& self.token_bytes(self.merge_table()[p] as int)
                    == self.token_bytes(p.0 as int) + self.token_bytes(p.1 as int)
            },
    {
        assert forall|bytes: Seq<u8>| is_new_bytes(self.base(), self.trained(), self.vocab(), bytes)
            <==> !#[trigger] self.vocab_table().contains_key(bytes) by {
            let bt = bytes_table(self.bytes_to_id);
            if bt.contains_key(bytes) {
                let t = bt[bytes] as int;
                assert(vocab_bytes(self.base(), self.trained(), t) == bytes);
            }
            if !bt.contains_key(bytes) {
                assert forall|t: int| 0 <= t < self.vocab() implies #[trigger] vocab_bytes(self.base(), self.trained(), t) != bytes by {
                    assert(bt.contains_key(self.token_bytes(t)));
                }
            }
        }
    }

    /// The bytes of token `token_id`.
    pub fn get_token_bytes(&self, token_id: u32) -> (bytes: Vec<u8>)
        requires
            self.wf(),
        ensures
            bytes@ == self.token_bytes(token_id as int),
    {
        match &self.mode {
            TrainerMode::ColdStart { hardcoded_merges } => {
                proof {
                    lemma_cold_rebuild_in_order(hardcoded_merges@, self.trained_merges@, token_id);
                }
                reconstruct_token_bytes_cold(
                    token_id,
                    hardcoded_merges.as_slice(),
                    self.trained_merges.as_slice(),
                    Ghost((token_id + 1) as nat),
                )
            },
            TrainerMode::WarmStart { loaded_tokens } => {
                let base_vocab = loaded_tokens.len() as u32;
                proof {
                    lemma_reconstructible(
                        base_vocab as int,
                        |t: int| t < loaded_tokens@.len(),
                        self.trained_merges@,
                        token_id as int,
                    );
                }
                reconstruct_token_bytes_warm(token_id, loaded_tokens.as_slice(), self.trained_merges.as_slice(), base_vocab)
            },
        }
    }

    /// Among the counted pairs, the first (in the table's order) allowed
    /// merge with the highest count, with the bytes it would stand for.
    fn select_merge(&self, counts: &AHashMap<(u32, u32), u64>, Ghost(segs): Ghost<Seq<Seq<u32>>>) -> (choice: Option<(u32, u32, Vec<u8>)>)
        requires
            self.wf(),
            counts_match(count_table(*counts), segs),
        ensures
            match choice {
                Some((a, b, bytes)) => {
                    &&& best_merge(segs, self.base(), self.trained(), self.vocab(), a, b)
                    &&& bytes@ == self.token_bytes(a as int) + self.token_bytes(b as int)
                },
                None => no_good_merge(segs, self.base(), self.trained(), self.vocab()),
            },
    {
        proof {
            self.lemma_wf_facts();
        }
        let ghost base = self.base();
        let ghost tr = self.trained();
        let ghost n = self.vocab();
        let entries = count_table_entries(counts);
        let mut best: Option<(u32, u32, u64, Vec<u8>)> = None;
        let mut i: usize = 0;
        while i < entries.len()
            invariant
                self.wf(),
                base == self.base(),
                tr == self.trained(),
                n == self.vocab(),
                counts_match(count_table(*counts), segs),
                forall|x: int|
                    0 <= x < entries@.len() ==> count_table(*counts).contains_key(#[trigger] entries@[x].0)
                        && count_table(*counts)[entries@[x].0] == entries@[x].1,
                0 <= i <= entries@.len(),
                match best {
                    Some((a, b, c, bytes)) => {
                        &&& good_merge(segs, base, tr, n, a, b)
                        &&& c == occurrences_in(segs, a, b)
                        &&& bytes@ == self.token_bytes(a as int) + self.token_bytes(b as int)
                    },
                    None => true,
                },
                forall|x: int| 0 <= x < i ==> #[trigger] good_merge(segs, base, tr, n, entries@[x].0.0, entries@[x].0.1)
                    ==> (best matches Some(bb) && occurrences_in(segs, entries@[x].0.0, entries@[x].0.1) <= bb.2),
            decreases entries@.len() - i,
        {
            let ((left, right), count) = entries[i];
            proof {
                assert(count == occurrences_in(segs, left, right));
            }
            let improves = match &best {
                Some((_, _, c, _)) => count > *c,
                None => true,
            };
            if count >= 2 && improves {
                let mut combined = self.get_token_bytes(left);
                let mut rb = self.get_token_bytes(right);
                combined.append(&mut rb);
                if !bytes_table_contains(&self.bytes_to_id, combined.as_slice()) {
                    proof {
                        self.lemma_wf_facts();
                        assert(!self.vocab_table().contains_key(combined@));
                        assert(is_new_bytes(base, tr, n, combined@));
                    }
                    best = Some((left, right, count, combined));
                } else {
                    proof {
                        self.lemma_wf_facts();
                        assert(self.vocab_table().contains_key(combined@));
                    }
                }
            }
            i = i + 1;
        }
        match best {
            Some((a, b, _c, bytes)) => {
                proof {
                    assert forall|c: u32, d: u32| #[trigger] good_merge(segs, base, tr, n, c, d)
                        implies occurrences_in(segs, c, d) <= occurrences_in(segs, a, b) by {
                        assert(count_table(*counts).contains_key((c, d)));
                        let x = choose|x: int| 0 <= x < entries@.len() && (#[trigger] entries@[x]).0 == (c, d);
                        assert(good_merge(segs, base, tr, n, entries@[x].0.0, entries@[x].0.1));
                    }
                }
                Some((a, b, bytes))
            },
            None => {
                proof {
                    assert forall|c: u32, d: u32| !#[trigger] good_merge(segs, base, tr, n, c, d) by {
                        if good_merge(segs, base, tr, n, c, d) {
                            assert(count_table(*counts).contains_key((c, d)));
                            let x = choose|x: int| 0 <= x < entries@.len() && (#[trigger] entries@[x]).0 == (c, d);
                            assert(good_merge(segs, base, tr, n, entries@[x].0.0, entries@[x].0.1));
                        }
                    }
                }
                None
            },
        }
    }

    /// One training step: count every pair, choose the best allowed merge,
    /// record it as the next token, and apply it to the data. Returns false,
    /// changing nothing, when no merge is allowed.
    fn merge_once(&mut self, reservoir: &mut Reservoir) -> (merged: bool)
        requires
            old(self).wf(),
            old(reservoir).wf(),
            tokens_below(old(reservoir).segments(), old(self).vocab()),
            old(self).vocab() < 0xFFFF_FFFF,
        ensures
            final(self).wf(),
            final(reservoir).wf(),
            final(self).base() == old(self).base(),
            final(self).is_cold() == old(self).is_cold(),
            final(self).byte_map() == old(self).byte_map(),
            final(self).settings() == old(self).settings(),
            tokens_below(final(reservoir).segments(), final(self).vocab()),
            merged ==> {
                let m = final(self).trained().last();
                &&& final(self).trained() == old(self).trained().push(m)
                &&& m.new_token == old(self).vocab()
                &&& final(self).vocab() == old(self).vocab() + 1
                &&& best_merge(old(reservoir).segments(), old(self).base(), old(self).trained(), old(self).vocab(), m.left_token, m.right_token)
                &&& final(reservoir).segments() == old(reservoir).segments().map_values(
                    |s: Seq<u32>| merge_seq(s, m.left_token, m.right_token, m.new_token),
                )
                &&& final(reservoir).kept().len() == old(reservoir).kept().len()
                &&& forall|i: int| 0 <= i < old(reservoir).kept().len() ==> (#[trigger] final(reservoir).kept()[i])@
                    == old(reservoir).kept()[i]@.map_values(
                    |s: Seq<u32>| merge_seq(s, m.left_token, m.right_token, m.new_token),
                )
                &&& final(self).merge_table() == old(self).merge_table().insert((m.left_token, m.right_token), m.new_token)
                &&& final(self).vocab_table() == old(self).vocab_table().insert(final(self).token_bytes(m.new_token as int), m.new_token)
            },
            !merged ==> {
                &&& final(self).merge_table() == old(self).merge_table()
                &&& final(self).vocab_table() == old(self).vocab_table()
                &&& final(self).trained() == old(self).trained()
                &&& final(self).vocab() == old(self).vocab()
                &&& *final(reservoir) == *old(reservoir)
                &&& no_good_merge(old(reservoir).segments(), old(self).base(), old(self).trained(), old(self).vocab())
            },
    {
        let counts = reservoir.count_pairs();
        let choice = self.select_merge(&counts, Ghost(reservoir.segments()));
        match choice {
            None => false,
            Some((left, right, combined)) => {
                let ghost old_self = *self;
                let ghost base = self.base();
                let ghost tr = self.trained();
                let new_token = self.vocab_size;
                proof {
                    self.lemma_wf_facts();
                    crate::trainer::lemma_occurring_pair_below(reservoir.segments(), self.vocab(), left, right);
                }
                bytes_table_insert(&mut self.bytes_to_id, combined, new_token);
                pair_table_insert(&mut self.pair_to_id, (left, right), new_token);
                let merge = TrainedMerge { left_token: left, right_token: right, new_token };
                self.trained_merges.push(merge);
                self.vocab_size = self.vocab_size + 1;
                proof {
                    let tr2 = self.trained();
                    assert(tr2 == tr.push(merge));
                    assert(tr2 =~= tr + seq![merge]);
                    assert forall|t: int| 0 <= t < new_token implies #[trigger] self.token_bytes(t) == old_self.token_bytes(t) by {
                        lemma_vocab_bytes_prefix(base, tr, seq![merge], t);
                    }
                    assert(self.token_bytes(left as int) == old_self.token_bytes(left as int));
                    assert(self.token_bytes(right as int) == old_self.token_bytes(right as int));
                    assert(tr2[new_token - base.len()] == merge);
                    assert(self.token_bytes(new_token as int) == self.token_bytes(left as int) + self.token_bytes(right as int));
                    self.lemma_wf_after_merge(old_self, left, right, new_token);
                }
                reservoir.apply_merge(left, right, new_token);
                proof {
                    lemma_merge_keeps_below(old(reservoir).segments(), self.vocab(), left, right, new_token);
                    assert(self.trained().last() == merge);
                }
                true
            },
        }
    }

    /// The tables stay consistent after recording the merge
    /// `(left, right) -> new_token`.
    proof fn lemma_wf_after_merge(&self, prev: BpeTrainer, left: u32, right: u32, new_token: u32)
        requires
            prev.wf(),
            new_token == prev.vocab_size,
            left < new_token,
            right < new_token,
            self.config == prev.config,
            self.mode == prev.mode,
            self.byte_to_token == prev.byte_to_token,
            self.trained_merges@ == prev.trained_merges@.push(TrainedMerge { left_token: left, right_token: right, new_token }),
            self.vocab_size == prev.vocab_size + 1,
            !bytes_table(prev.bytes_to_id).contains_key(self.token_bytes(new_token as int)),
            bytes_table(self.bytes_to_id) == bytes_table(prev.bytes_to_id).insert(self.token_bytes(new_token as int), new_token),
            pair_table(self.pair_to_id) == pair_table(prev.pair_to_id).insert((left, right), new_token),
            forall|t: int| 0 <= t < new_token ==> #[trigger] self.token_bytes(t) == prev.token_bytes(t),
            self.token_bytes(new_token as int) == self.token_bytes(left as int) + self.token_bytes(right as int),
        ensures
            self.wf(),
    {
        let base_len = self.base().len() as int;
        let tr = self.trained_merges@;
        let bt = bytes_table(self.bytes_to_id);
        let pt = pair_table(self.pair_to_id);
        let bt0 = bytes_table(prev.bytes_to_id);
        let pt0 = pair_table(prev.pair_to_id);
        let nb = self.token_bytes(new_token as int);
        assert(self.base() == prev.base());
        assert forall|i: int| 0 <= i < tr.len() implies {
            &&& (#[trigger] tr[i]).new_token == base_len + i
            &&& tr[i].left_token < base_len + i
            &&& tr[i].right_token < base_len + i
        } by {
            if i < tr.len() - 1 {
                assert(tr[i] == prev.trained_merges@[i]);
            }
        }
        assert forall|t: int| 0 <= t < self.vocab_size implies bt.contains_key(#[trigger] self.token_bytes(t)) by {
            if t < new_token {
                assert(bt0.contains_key(prev.token_bytes(t)));
            }
        }
        assert forall|i: int, t: int| 0 <= i < tr.len() && 0 <= t < base_len + i implies #[trigger] self.token_bytes(t)
            != #[trigger] self.token_bytes(base_len + i) by {
            if i < tr.len() - 1 {
                assert(self.token_bytes(base_len + i) == prev.token_bytes(base_len + i));
                assert(self.token_bytes(t) == prev.token_bytes(t));
                assert(prev.token_bytes(t) != prev.token_bytes(base_len + i));
            } else {
                assert(bt0.contains_key(prev.token_bytes(t)));
            }
        }
        assert forall|key: Seq<u8>| #[trigger] bt.contains_key(key) implies bt[key] < self.vocab_size
            && self.token_bytes(bt[key] as int) == key by {
            if key != nb {
                assert(bt0.contains_key(key));
                assert(self.token_bytes(bt0[key] as int) == prev.token_bytes(bt0[key] as int));
            }
        }
        assert forall|p: (u32, u32)| #[trigger] pt.contains_key(p) implies {
            &&& p.0 < pt[p]
            &&& p.1 < pt[p]
            &&& pt[p] < self.vocab_size
            &&& self.token_bytes(pt[p] as int) == self.token_bytes(p.0 as int) + self.token_bytes(p.1 as int)
        } by {
            if p != (left, right) {
                assert(pt0.contains_key(p));
                assert(self.token_bytes(pt0[p] as int) == prev.token_bytes(pt0[p] as int));
                assert(self.token_bytes(p.0 as int) == prev.token_bytes(p.0 as int));
                assert(self.token_bytes(p.1 as int) == prev.token_bytes(p.1 as int));
            }
        }
    }

    /// Train up to `num_merges` merges on the reservoir, stopping early when
    /// no merge is allowed or when the last token ID below the sentinel has
    /// been given out. Returns the number of merges made.
    pub fn train_phase(&mut self, reservoir: &mut Reservoir, num_merges: usize) -> (done: usize)
        requires
            old(self).wf(),
            old(reservoir).wf(),
            tokens_below(old(reservoir).segments(), old(self).vocab()),
        ensures
            final(self).wf(),
            final(reservoir).wf(),
            final(self).base() == old(self).base(),
            final(self).is_cold() == old(self).is_cold(),
            final(self).byte_map() == old(self).byte_map(),
            final(self).settings() == old(self).settings(),
            tokens_below(final(reservoir).segments(), final(self).vocab()),
            done <= num_merges,
            final(self).vocab() == old(self).vocab() + done,
            final(self).trained().len() == old(self).trained().len() + done,
            final(self).trained().take(old(self).trained().len() as int) == old(self).trained(),
            done < num_merges && final(self).vocab() < 0xFFFF_FFFF ==> no_good_merge(
                final(reservoir).segments(),
                final(self).base(),
                final(self).trained(),
                final(self).vocab(),
            ),
            final(self).merge_table() == with_merged_pairs(
                old(self).merge_table(),
                final(self).trained().skip(old(self).trained().len() as int),
            ),
            final(self).vocab_table() == with_new_tokens(
                old(self).vocab_table(),
                final(self).base(),
                final(self).trained(),
                old(self).trained().len() as int,
                final(self).trained().len() as int,
            ),
            final(reservoir).kept().len() == old(reservoir).kept().len(),
            forall|i: int| 0 <= i < old(reservoir).kept().len() ==> (#[trigger] final(reservoir).kept()[i])@
                == apply_merges(old(reservoir).kept()[i]@, final(self).trained().skip(old(self).trained().len() as int)),
            exists|hist: Seq<Seq<Seq<u32>>>| {
                &&& hist.len() == done + 1
                &&& hist[0] == old(reservoir).segments()
                &&& hist[done as int] == final(reservoir).segments()
                &&& forall|j: int| 0 <= j < done ==> #[trigger] merge_step(
                    hist[j],
                    hist[j + 1],
                    final(self).base(),
                    final(self).trained(),
                    old(self).trained().len() + j,
                )
            },
    {
        let ghost n0 = self.trained().len() as int;
        let ghost mut hist: Seq<Seq<Seq<u32>>> = seq![reservoir.segments()];
        proof {
            assert(self.trained().skip(n0) =~= Seq::<TrainedMerge>::empty());
            assert forall|i: int| 0 <= i < reservoir.kept().len() implies (#[trigger] reservoir.kept()[i])@
                == apply_merges(reservoir.kept()[i]@, self.trained().skip(n0)) by {}
        }
        let mut merges_done: usize = 0;
        while merges_done < num_merges && self.vocab_size < 0xFFFF_FFFF
            invariant
                self.wf(),
                reservoir.wf(),
                self.base() == old(self).base(),
                self.is_cold() == old(self).is_cold(),
                self.byte_map() == old(self).byte_map(),
                self.settings() == old(self).settings(),
                tokens_below(reservoir.segments(), self.vocab()),
                n0 == old(self).trained().len(),
                merges_done <= num_merges,
                self.vocab() == old(self).vocab() + merges_done,
                self.trained().len() == n0 + merges_done,
                self.trained().take(n0) == old(self).trained(),
                self.merge_table() == with_merged_pairs(old(self).merge_table(), self.trained().skip(n0)),
                self.vocab_table() == with_new_tokens(
                    old(self).vocab_table(),
                    self.base(),
                    self.trained(),
                    n0,
                    self.trained().len() as int,
                ),
                reservoir.kept().len() == old(reservoir).kept().len(),
                forall|i: int| 0 <= i < old(reservoir).kept().len() ==> (#[trigger] reservoir.kept()[i])@
                    == apply_merges(old(reservoir).kept()[i]@, self.trained().skip(n0)),
                hist.len() == merges_done + 1,
                hist[0] == old(reservoir).segments(),
                hist[merges_done as int] == reservoir.segments(),
                forall|j: int| 0 <= j < merges_done ==> #[trigger] merge_step(
                    hist[j],
                    hist[j + 1],
                    self.base(),
                    self.trained(),
                    n0 + j,
                ),
            ensures
                self.wf(),
                reservoir.wf(),
                self.base() == old(self).base(),
                self.is_cold() == old(self).is_cold(),
                self.byte_map() == old(self).byte_map(),
                self.settings() == old(self).settings(),
                tokens_below(reservoir.segments(), self.vocab()),
                merges_done <= num_merges,
                self.vocab() == old(self).vocab() + merges_done,
                self.trained().len() == n0 + merges_done,
                self.trained().take(n0) == old(self).trained(),
                self.merge_table() == with_merged_pairs(old(self).merge_table(), self.trained().skip(n0)),
                self.vocab_table() == with_new_tokens(
                    old(self).vocab_table(),
                    self.base(),
                    self.trained(),
                    n0,
                    self.trained().len() as int,
                ),
                merges_done < num_merges && self.vocab() < 0xFFFF_FFFF ==> no_good_merge(
                    reservoir.segments(),
                    self.base(),
                    self.trained(),
                    self.vocab(),
                ),
                reservoir.kept().len() == old(reservoir).kept().len(),
                forall|i: int| 0 <= i < old(reservoir).kept().len() ==> (#[trigger] reservoir.kept()[i])@
                    == apply_merges(old(reservoir).kept()[i]@, self.trained().skip(n0)),
                hist.len() == merges_done + 1,
                hist[0] == old(reservoir).segments(),
                hist[merges_done as int] == reservoir.segments(),
                forall|j: int| 0 <= j < merges_done ==> #[trigger] merge_step(
                    hist[j],
                    hist[j + 1],
                    self.base(),
                    self.trained(),
                    n0 + j,
                ),
            decreases num_merges - merges_done,
        {
            let ghost tr_before = self.trained();
            let ghost pairs_before = self.merge_table();
            let ghost segs_before = reservoir.segments();
            let merged = self.merge_once(reservoir);
            if !merged {
                break;
            }
            proof {
                let tr_after = self.trained();
                let m = tr_after.last();
                assert(tr_after.skip(n0) =~= tr_before.skip(n0).push(m));
                assert(tr_after.skip(n0).drop_last() =~= tr_before.skip(n0));
                assert(tr_after.skip(n0).last() == m);
                assert forall|i: int| 0 <= i < old(reservoir).kept().len() implies (#[trigger] reservoir.kept()[i])@
                    == apply_merges(old(reservoir).kept()[i]@, tr_after.skip(n0)) by {
                    assert(reservoir.kept()[i]@ =~= apply_merges(old(reservoir).kept()[i]@, tr_after.skip(n0)));
                }
                assert(tr_after =~= tr_before + seq![m]);
                lemma_with_new_tokens_stable(
                    old(self).vocab_table(),
                    self.base(),
                    tr_before,
                    seq![m],
                    n0,
                    tr_before.len() as int,
                );
                hist = hist.push(reservoir.segments());
                assert(tr_after.take(n0) =~= tr_before.take(n0));
                assert(tr_after.take(n0 + merges_done) =~= tr_before);
                assert forall|j: int| 0 <= j < merges_done + 1 implies #[trigger] merge_step(
                    hist[j],
                    hist[j + 1],
                    self.base(),
                    self.trained(),
                    n0 + j,
                ) by {
                    if j < merges_done {
                        assert(merge_step(hist[j], hist[j + 1], self.base(), tr_before, n0 + j));
                        assert(tr_after.take(n0 + j) =~= tr_before.take(n0 + j));
                        assert(tr_after[n0 + j] == tr_before[n0 + j]);
                    } else {
                        assert(tr_after.take(n0 + j) =~= tr_before);
                        assert(tr_after[n0 + j] == m);
                    }
                }
            }
            merges_done = merges_done + 1;
        }
        merges_done
    }
}

/// The segments with the merges applied one after another, in order.
pub open spec fn apply_merges(segs: Seq<Seq<u32>>, merges: Seq<TrainedMerge>) -> Seq<Seq<u32>>
    decreases merges.len(),
{
    if merges.len() == 0 {
        segs
    } else {
        let m = merges.last();
        apply_merges(segs, merges.drop_last()).map_values(
            |s: Seq<u32>| merge_seq(s, m.left_token, m.right_token, m.new_token),
        )
    }
}

/// The pair table with each merge's pair entered under its new token, in
/// order.
pub open spec fn with_merged_pairs(table: Map<(u32, u32), u32>, merges: Seq<TrainedMerge>) -> Map<(u32, u32), u32>
    decreases merges.len(),
{
    if merges.len() == 0 {
        table
    } else {
        with_merged_pairs(table, merges.drop_last()).insert(
            (merges.last().left_token, merges.last().right_token),
            merges.last().new_token,
        )
    }
}

/// The byte table with the bytes of trained tokens `from` to `to`
/// (counted among the trained merges) entered under their IDs, in order.
pub open spec fn with_new_tokens(
    table: Map<Seq<u8>, u32>,
    base: Seq<Seq<u8>>,
    trained: Seq<TrainedMerge>,
    from: int,
    to: int,
) -> Map<Seq<u8>, u32>
    decreases to - from,
{
    if to <= from {
        table
    } else {
        with_new_tokens(table, base, trained, from, to - 1).insert(
            vocab_bytes(base, trained, base.len() + to - 1),
            (base.len() + to - 1) as u32,
        )
    }
}

/// Merges appended later do not change which bytes earlier tokens entered.
pub proof fn lemma_with_new_tokens_stable(
    table: Map<Seq<u8>, u32>,
    base: Seq<Seq<u8>>,
    trained: Seq<TrainedMerge>,
    more: Seq<TrainedMerge>,
    from: int,
    to: int,
)
    requires
        to <= trained.len(),
    ensures
        with_new_tokens(table, base, trained + more, from, to) == with_new_tokens(table, base, trained, from, to),
    decreases to - from,
{
    if to > from {
        lemma_with_new_tokens_stable(table, base, trained, more, from, to - 1);
        lemma_vocab_bytes_prefix(base, trained, more, base.len() + to - 1);
    }
}

/// Step `i` of training: with the vocabulary as it was before trained merge
/// `i`, that merge was a best allowed merge of `before`, and `after` is
/// `before` with it applied.
pub open spec fn merge_step(
    before: Seq<Seq<u32>>,
    after: Seq<Seq<u32>>,
    base: Seq<Seq<u8>>,
    trained: Seq<TrainedMerge>,
    i: int,
) -> bool {
    let m = trained[i];
    &&& 0 <= i < trained.len()
    &&& best_merge(before, base, trained.take(i), base.len() + i, m.left_token, m.right_token)
    &&& after == before.map_values(|s: Seq<u32>| merge_seq(s, m.left_token, m.right_token, m.new_token))
}

/// The cold-start base vocabulary: byte `t` for `t < 256`, then the
/// hardcoded merges.
pub open spec fn cold_vocabulary() -> Seq<Seq<u8>> {
    Seq::new(TRAINED_START as nat, |t: int| base_token_bytes(t))
}

/// The identity byte-to-token map.
pub open spec fn identity_bytes() -> Seq<u32> {
    Seq::new(256, |b: int| b as u32)
}

impl BpeTrainer {
    /// A cold-start trainer for this configuration: base bytes and hardcoded
    /// merges, no trained merge yet, with the hardcoded tables.
    pub open spec fn is_cold_start(&self, config: Config) -> bool {
        &&& self.wf()
        &&& self.is_cold()
        &&& self.base() == cold_vocabulary()
        &&& self.trained() == Seq::<TrainedMerge>::empty()
        &&& self.vocab() == TRAINED_START
        &&& self.byte_map() == identity_bytes()
        &&& self.merge_table() == hardcoded_pair_table(1161)
        &&& self.vocab_table() == base_vocab_table(TRAINED_START as int)
        &&& self.settings() == config
    }

    /// Creates a trainer: from the lines of the warm-start file when the
    /// configuration names one, else a cold start with the hardcoded merges.
    pub fn new(config: Config, warm_start_lines: &Vec<String>) -> (r: Result<Self, LoadError>)
        requires
            warm_start_lines@.len() <= 0xFFFF_FFFF,
        ensures
            config.warm_start is None ==> (r matches Ok(t) && t.is_cold_start(config)),
            config.warm_start is Some ==> {
                &&& (r is Ok <==> warm_start_error(line_texts(warm_start_lines@)) is None)
                &&& (r matches Err(e) ==> warm_start_error(line_texts(warm_start_lines@)) == Some(e))
                &&& (r matches Ok(t) ==> t.loaded_from(line_texts(warm_start_lines@)) && t.settings() == config)
            },
    {
        if config.warm_start.is_some() {
            return Self::from_warm_start(config, warm_start_lines);
        }
        Ok(Self::cold_start(config))
    }

    /// A cold-start trainer: base bytes and hardcoded merges, no trained
    /// merge yet.
    fn cold_start(config: Config) -> (trainer: Self)
        ensures
            trainer.is_cold_start(config),
    {
        let (hardcoded_merges, bytes_to_id, pair_to_id) = generate_hardcoded_merges();
        let mut byte_to_token = [0u32; 256];
        let mut i: usize = 0;
        while i < 256
            invariant
                i <= 256,
                forall|b: int| 0 <= b < i ==> byte_to_token@[b] == b,
            decreases 256 - i,
        {
            byte_to_token[i] = i as u32;
            i = i + 1;
        }
        let trainer = BpeTrainer {
            config,
            mode: TrainerMode::ColdStart { hardcoded_merges },
            bytes_to_id,
            pair_to_id,
            byte_to_token,
            trained_merges: Vec::new(),
            vocab_size: TRAINED_START,
        };
        proof {
            assert(trainer.byte_map() =~= identity_bytes());
            assert(trainer.base() =~= cold_vocabulary());
            assert forall|t: int| 0 <= t < TRAINED_START implies #[trigger] trainer.token_bytes(t) == base_token_bytes(t) by {
                assert(trainer.base()[t] == base_token_bytes(t));
            }
            let bt = bytes_table(trainer.bytes_to_id);
            assert forall|t: int| 0 <= t < trainer.vocab_size implies bt.contains_key(#[trigger] trainer.token_bytes(t)) by {
                lemma_token_of_bytes_inverse(t);
            }
            law_hardcoded_table_consistent();
            let tb = |t: u32| cold_base_bytes(t);
            let pt = pair_table(trainer.pair_to_id);
            assert forall|p: (u32, u32)| #[trigger] pt.contains_key(p) implies {
                &&& p.0 < pt[p]
                &&& p.1 < pt[p]
                &&& pt[p] < trainer.vocab_size
                &&& trainer.token_bytes(pt[p] as int) == trainer.token_bytes(p.0 as int) + trainer.token_bytes(p.1 as int)
            } by {
                assert(tb(pt[p]) == tb(p.0) + tb(p.1));
            }
        }
        trainer
    }
}


// ---------------------------------------------------------------------------
// Warm start
// ---------------------------------------------------------------------------

/// The error that loading these lines gives, if any: the first bad line's,
/// else that of the ranks.
pub open spec fn warm_start_error(lines: Seq<Seq<char>>) -> Option<LoadError> {
    match read_tiktoken(lines) {
        Err(e) => Some(e),
        Ok(l) => rank_error(l),
    }
}

impl BpeTrainer {
    /// This trainer is the one loaded from these lines: its base vocabulary
    /// holds each read token at the position of its rank, no merge is
    /// trained yet, and its tables are built from the tokens as read.
    pub open spec fn loaded_from(&self, lines: Seq<Seq<char>>) -> bool {
        read_tiktoken(lines) matches Ok(l) && {
            &&& self.wf()
            &&& !self.is_cold()
            &&& self.trained().len() == 0
            &&& self.base().len() == l.len()
            &&& self.vocab() == l.len()
            &&& forall|r: int| #![trigger self.base()[r]] 0 <= r < l.len() ==> exists|j: int| 0 <= j < l.len() && #[trigger] l[j] == (self.base()[r], r as u32)
            &&& self.vocab_table() == rank_table(l)
            &&& self.byte_map() == byte_map_of(rank_table(l))
            &&& is_split_table(self.merge_table(), self.base(), rank_table(l))
        }
    }

    /// The tables of a trainer built from loaded tokens agree with its
    /// vocabulary.
    proof fn lemma_warm_wf(&self, file_order: Seq<LoadedToken>)
        requires
            self.mode matches TrainerMode::WarmStart { loaded_tokens } && {
                &&& loaded_tokens@.len() == file_order.len()
                &&& loaded_tokens@.len() <= 0xFFFF_FFFF
                &&& loaded_tokens@.to_multiset() == file_order.to_multiset()
                &&& forall|i: int| 0 <= i < loaded_tokens@.len() ==> (#[trigger] loaded_tokens@[i]).rank == i
                &&& is_split_table(pair_table(self.pair_to_id), self.base(), rank_table(token_pairs(file_order)))
            },
            self.trained_merges@.len() == 0,
            self.vocab_size == file_order.len(),
            bytes_table(self.bytes_to_id) == rank_table(token_pairs(file_order)),
        ensures
            self.wf(),
            forall|r: int| #![trigger self.base()[r]] 0 <= r < file_order.len() ==> exists|j: int| 0 <= j < file_order.len()
                && #[trigger] token_pairs(file_order)[j] == (self.base()[r], r as u32),
    {
        broadcast use vstd::seq_lib::group_to_multiset_ensures;
        let sorted = self.mode->loaded_tokens@;
        let l = token_pairs(file_order);
        let bt = bytes_table(self.bytes_to_id);
        let base = self.base();
        let n = file_order.len() as int;
        lemma_rank_table_entries(l);
        assert forall|t: int| 0 <= t < n implies #[trigger] self.token_bytes(t) == base[t] by {}
        assert forall|r: int| #![trigger base[r]] 0 <= r < n implies exists|j: int| 0 <= j < n && #[trigger] l[j] == (base[r], r as u32) by {
            assert(sorted.to_multiset().count(sorted[r]) > 0);
            assert(file_order.contains(sorted[r]));
            let j = choose|j: int| 0 <= j < n && file_order[j] == sorted[r];
            assert(l[j] == (base[r], r as u32));
        }
        assert forall|t: int| 0 <= t < self.vocab_size implies bt.contains_key(#[trigger] self.token_bytes(t)) by {
            let j = choose|j: int| 0 <= j < n && #[trigger] l[j] == (base[t], t as u32);
            assert(bt.contains_key(l[j].0));
        }
        assert forall|key: Seq<u8>| #[trigger] bt.contains_key(key) implies bt[key] < self.vocab_size
            && self.token_bytes(bt[key] as int) == key by {
            let j = choose|j: int| 0 <= j < l.len() && l[j] == (key, rank_table(l)[key]);
            let tok = file_order[j];
            assert(file_order.to_multiset().count(tok) > 0);
            assert(sorted.contains(tok));
            let a = choose|a: int| 0 <= a < sorted.len() && sorted[a] == tok;
            assert(sorted[a].rank == a);
        }
        let pt = pair_table(self.pair_to_id);
        assert forall|p: (u32, u32)| #[trigger] pt.contains_key(p) implies {
            &&& p.0 < pt[p]
            &&& p.1 < pt[p]
            &&& pt[p] < self.vocab_size
            &&& self.token_bytes(pt[p] as int) == self.token_bytes(p.0 as int) + self.token_bytes(p.1 as int)
        } by {
            let r = pt[p] as int;
            assert(splits_into(base, bt, r, p));
            let k = choose|k: int| split_at_pair(base, bt, r, k, p);
            let left = base[r].take(k);
            let right = base[r].skip(k);
            assert(bt.contains_key(left));
            assert(bt.contains_key(right));
            assert(self.token_bytes(bt[left] as int) == left);
            assert(self.token_bytes(bt[right] as int) == right);
            assert(base[r] =~= left + right);
        }
    }

    /// Loads a trainer from the lines of a .tiktoken file (warm start): reads
    /// each token, indexes the bytes, orders the tokens by rank (which must
    /// then be `0, 1, 2, ...`), and builds the single-byte and merge tables.
    pub fn from_warm_start(config: Config, lines: &Vec<String>) -> (r: Result<Self, LoadError>)
        requires
            lines@.len() <= 0xFFFF_FFFF,
        ensures
            r is Ok <==> warm_start_error(line_texts(lines@)) is None,
            r matches Err(e) ==> warm_start_error(line_texts(lines@)) == Some(e),
            r matches Ok(t) ==> t.loaded_from(line_texts(lines@)) && t.settings() == config,
    {
        let loaded = match read_entries(lines) {
            Ok(v) => v,
            Err(e) => return Err(e),
        };
        let vocab_size = loaded.len() as u32;
        let bytes_to_id = index_by_bytes(&loaded);
        let ghost file_order = loaded@;
        let loaded_tokens = match sort_and_check_ranks(loaded) {
            Ok(s) => s,
            Err(e) => return Err(e),
        };
        let byte_to_token = byte_to_token_table(&bytes_to_id);
        let pair_to_id = build_pair_to_id(loaded_tokens.as_slice(), &bytes_to_id);
        let trainer = BpeTrainer {
            config,
            mode: TrainerMode::WarmStart { loaded_tokens },
            bytes_to_id,
            pair_to_id,
            byte_to_token,
            trained_merges: Vec::new(),
            vocab_size,
        };
        proof {
            assert(trainer.base() =~= crate::warm::token_bytes_of(trainer.mode->loaded_tokens@));
            trainer.lemma_warm_wf(file_order);
        }
        Ok(trainer)
    }
}


// ---------------------------------------------------------------------------
// Writing the vocabulary
// ---------------------------------------------------------------------------

impl BpeTrainer {
    /// These are the lines of the trainer's vocabulary: line `t` is token
    /// `t`'s bytes in base64 and its rank `t`.
    pub open spec fn written_lines(&self, lines: Seq<Seq<char>>) -> bool {
        &&& lines.len() == self.vocab()
        &&& forall|t: int| 0 <= t < self.vocab() ==> {
            &&& #[trigger] lines[t] == tiktoken_line(self.token_bytes(t), t as nat)
            &&& encodes_back(self.token_bytes(t))
        }
    }

    /// The lines of the .tiktoken file for the whole vocabulary, in rank
    /// order: the base vocabulary (base bytes and hardcoded merges, or the
    /// loaded tokens), then the trained merges.
    pub fn output_lines(&self) -> (lines: Vec<String>)
        requires
            self.wf(),
        ensures
            self.written_lines(line_texts(lines@)),
    {
        proof {
            self.lemma_wf_facts();
        }
        let mut lines: Vec<String> = Vec::new();
        let mut t: u32 = 0;
        while t < self.vocab_size
            invariant
                self.wf(),
                t <= self.vocab_size,
                lines@.len() == t,
                forall|u: int| 0 <= u < t ==> {
                    &&& #[trigger] line_texts(lines@)[u] == tiktoken_line(self.token_bytes(u), u as nat)
                    &&& encodes_back(self.token_bytes(u))
                },
            decreases self.vocab_size - t,
        {
            let bytes = self.get_token_bytes(t);
            let line = format_line(bytes.as_slice(), t);
            let ghost before = lines@;
            lines.push(line);
            proof {
                assert(line_texts(lines@) =~= line_texts(before).push(line@));
            }
            t = t + 1;
        }
        lines
    }
}

/// Law: loading the lines written for a vocabulary succeeds and gives back
/// the same vocabulary, token for token, when no token is empty.
pub proof fn law_written_vocabulary_reloads(trainer: BpeTrainer, lines: Seq<Seq<char>>, reloaded: BpeTrainer)
    requires
        trainer.wf(),
        trainer.written_lines(lines),
        forall|t: int| 0 <= t < trainer.vocab() ==> (#[trigger] trainer.token_bytes(t)).len() > 0,
    ensures
        warm_start_error(lines) is None,
        reloaded.loaded_from(lines) ==> {
            &&& reloaded.vocab() == trainer.vocab()
            &&& forall|t: int| 0 <= t < trainer.vocab() ==> #[trigger] reloaded.token_bytes(t) == trainer.token_bytes(t)
        },
{
    trainer.lemma_wf_facts();
    let n = trainer.vocab();
    let bytes = Seq::new(n as nat, |t: int| trainer.token_bytes(t));
    assert forall|t: int| 0 <= t < bytes.len() implies (#[trigger] bytes[t]).len() > 0 && encodes_back(bytes[t]) by {
        assert(bytes[t] == trainer.token_bytes(t));
        assert(lines[t] == tiktoken_line(trainer.token_bytes(t), t as nat));
    }
    lemma_read_written(bytes);
    assert(Seq::new(bytes.len(), |t: int| tiktoken_line(bytes[t], t as nat)) =~= lines) by {
        assert forall|t: int| 0 <= t < n implies #[trigger] lines[t] == tiktoken_line(bytes[t], t as nat) by {}
    }
    let l = Seq::new(bytes.len(), |t: int| (bytes[t], t as u32));
    assert(read_tiktoken(lines) matches Ok(read) && read == l);
    lemma_ranks_in_place(l);
    if reloaded.loaded_from(lines) {
        assert forall|t: int| 0 <= t < n implies #[trigger] reloaded.token_bytes(t) == trainer.token_bytes(t) by {
            assert(reloaded.base()[t] == reloaded.base()[t]);
            let j = choose|j: int| 0 <= j < l.len() && #[trigger] l[j] == (reloaded.base()[t], t as u32);
            assert(j == t);
        }
    }
}


// ---------------------------------------------------------------------------
// Accessors
// ---------------------------------------------------------------------------

impl BpeTrainer {
    /// The current vocabulary size.
    pub fn vocab_size(&self) -> (n: u32)
        ensures
            n == self.vocab(),
    {
        self.vocab_size
    }

    /// The size of the base vocabulary (before any trained merge).
    pub fn base_vocab_size(&self) -> (n: usize)
        ensures
            n == self.base().len(),
    {
        match &self.mode {
            TrainerMode::ColdStart { hardcoded_merges } => {
                proof {
                    assert(self.base().len() == TRAINED_START);
                }
                TRAINED_START as usize
            },
            TrainerMode::WarmStart { loaded_tokens } => loaded_tokens.len(),
        }
    }

    /// Whether the trainer was loaded from a vocabulary file.
    pub fn is_warm_start(&self) -> (r: bool)
        ensures
            r == !self.is_cold(),
    {
        match &self.mode {
            TrainerMode::ColdStart { .. } => false,
            TrainerMode::WarmStart { .. } => true,
        }
    }

    /// The merges trained so far, in order.
    pub fn trained_merges(&self) -> (m: &Vec<TrainedMerge>)
        ensures
            m@ == self.trained(),
    {
        &self.trained_merges
    }

    /// The pair-to-ID table used when loading data.
    pub fn pair_to_id(&self) -> (m: &AHashMap<(u32, u32), u32>)
        ensures
            pair_table(*m) == self.merge_table(),
    {
        &self.pair_to_id
    }

    /// The byte-to-token map used when loading data.
    pub fn byte_to_token(&self) -> (m: &[u32; 256])
        ensures
            m@ == self.byte_map(),
    {
        &self.byte_to_token
    }

    /// The configuration.
    pub fn config(&self) -> (c: &Config)
        ensures
            *c == self.settings(),
    {
        &self.config
    }
}


// ---------------------------------------------------------------------------
// Laws of the vocabulary
// ---------------------------------------------------------------------------

/// Law: no trained merge repeats the bytes of a token that came before it.
pub proof fn law_trained_tokens_are_new(trainer: BpeTrainer)
    requires
        trainer.wf(),
    ensures
        forall|i: int, t: int| 0 <= i < trainer.trained().len() && 0 <= t < trainer.base().len() + i
            ==> #[trigger] trainer.token_bytes(t) != #[trigger] trainer.token_bytes(trainer.base().len() + i),
{
}

/// Law: in a cold-started trainer no two tokens have the same bytes.
pub proof fn law_cold_vocabulary_distinct(trainer: BpeTrainer, t1: int, t2: int)
    requires
        trainer.wf(),
        trainer.is_cold(),
        0 <= t1 < t2 < trainer.vocab(),
    ensures
        trainer.token_bytes(t1) != trainer.token_bytes(t2),
{
    let base = trainer.base();
    assert(base.len() == TRAINED_START);
    if t2 < TRAINED_START {
        assert(trainer.token_bytes(t1) == base[t1]);
        assert(trainer.token_bytes(t2) == base[t2]);
        assert(base[t1] == base_token_bytes(t1));
        assert(base[t2] == base_token_bytes(t2));
        law_base_vocabulary_distinct(t1, t2);
    } else {
        let i = t2 - TRAINED_START;
        assert(trainer.token_bytes(t1) != trainer.token_bytes(base.len() + i));
    }
}

/// Law: training only appends; every token that existed before keeps its
/// bytes, so earlier token IDs stay valid (a warm start keeps the loaded
/// IDs, and each phase keeps those of the phases before it).
pub proof fn law_training_keeps_existing_tokens(before: BpeTrainer, after: BpeTrainer)
    requires
        before.wf(),
        after.base() == before.base(),
        after.trained().len() >= before.trained().len(),
        after.trained().take(before.trained().len() as int) == before.trained(),
    ensures
        forall|t: int| 0 <= t < before.vocab() ==> #[trigger] after.token_bytes(t) == before.token_bytes(t),
{
    before.lemma_wf_facts();
    let n = before.trained().len() as int;
    let more = after.trained().skip(n);
    assert(after.trained() =~= before.trained() + more);
    assert forall|t: int| 0 <= t < before.vocab() implies #[trigger] after.token_bytes(t) == before.token_bytes(t) by {
        lemma_vocab_bytes_prefix(before.base(), before.trained(), more, t);
    }
}


/// Law: a vocabulary loaded from a file and trained further is written out
/// with every loaded token on the line of its own rank (the token read with
/// that rank), so the loaded token IDs stay valid.
pub proof fn law_warm_start_keeps_ranks(
    loaded: BpeTrainer,
    lines: Seq<Seq<char>>,
    trained: BpeTrainer,
    out: Seq<Seq<char>>,
)
    requires
        loaded.loaded_from(lines),
        trained.base() == loaded.base(),
        trained.wf(),
        trained.written_lines(out),
    ensures
        forall|r: int| 0 <= r < loaded.vocab() ==> #[trigger] out[r] == tiktoken_line(loaded.base()[r], r as nat),
{
    assert(trained.trained().take(0) =~= loaded.trained());
    law_training_keeps_existing_tokens(loaded, trained);
    assert forall|r: int| 0 <= r < loaded.vocab() implies #[trigger] out[r] == tiktoken_line(loaded.base()[r], r as nat) by {
        assert(trained.token_bytes(r) == loaded.token_bytes(r));
        assert(loaded.token_bytes(r) == loaded.base()[r]);
        assert(out[r] == tiktoken_line(trained.token_bytes(r), r as nat));
    }
}

} // verus!
