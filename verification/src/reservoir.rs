//! The reservoir of training data: chunks kept under a memory budget, and
//! the batching of token streams into chunks.
use vstd::prelude::*;
use ahash::AHashMap;
use rayon::iter::{IntoParallelRefIterator, IntoParallelRefMutIterator, ParallelIterator};
use crate::chunk::{
    add_counts, built_from, counts_match, lemma_total_len_append, merge_seq, split_segments, total_len, TokenChunk,
    SENTINEL,
};
use crate::hardcoded::{apply_hardcoded_merges, bytes_as_tokens, merge_to_fixpoint};
use crate::maps::{count_table, count_table_new, pair_table};
use crate::tokenizer::{
    pre_token_views, pre_tokenize_with_special_tokens, pre_tokens, texts_of, PreToken, PreTokenizer,
};

verus! {

/// Minimum tokens per batch before it is handed on as a chunk.
pub const MIN_CHUNK_SIZE: usize = 10000;

/// All segments of all chunks, chunk by chunk.
pub open spec fn all_segments(chunks: Seq<TokenChunk>) -> Seq<Seq<u32>>
    decreases chunks.len(),
{
    if chunks.len() == 0 {
        Seq::empty()
    } else {
        all_segments(chunks.drop_last()) + chunks.last()@
    }
}

/// Sum of the estimated memory footprints of the chunks.
pub open spec fn chunks_memory(chunks: Seq<TokenChunk>) -> int
    decreases chunks.len(),
{
    if chunks.len() == 0 {
        0
    } else {
        chunks_memory(chunks.drop_last()) + chunks.last().memory_size_spec()
    }
}

/// Every chunk is well formed.
pub open spec fn chunks_wf(chunks: Seq<TokenChunk>) -> bool {
    forall|i: int| 0 <= i < chunks.len() ==> (#[trigger] chunks[i]).wf()
}

/// Reservoir of training data with bounded memory usage.
pub struct Reservoir {
    /// Chunks of tokenized data
    pub chunks: Vec<TokenChunk>,
    /// Maximum memory in bytes
    max_bytes: usize,
    /// Current estimated memory usage
    current_bytes: usize,
    /// Total items seen (for reservoir sampling)
    total_seen: u64,
}

impl Reservoir {
    /// The chunks are well formed and `current_bytes` is their footprint.
    pub closed spec fn wf(&self) -> bool {
        &&& chunks_wf(self.chunks@)
        &&& self.current_bytes == chunks_memory(self.chunks@)
        &&& self.current_bytes <= self.max_bytes
    }

    /// The live tokens of every segment of every chunk.
    pub closed spec fn segments(&self) -> Seq<Seq<u32>> {
        all_segments(self.chunks@)
    }

    /// The kept chunks.
    pub closed spec fn kept(&self) -> Seq<TokenChunk> {
        self.chunks@
    }

    /// What a well-formed reservoir guarantees: its chunks are well formed,
    /// its segments are theirs, and its memory usage is the sum of their
    /// footprints and stays within the budget.
    pub proof fn lemma_wf_facts(&self)
        requires
            self.wf(),
        ensures
            chunks_wf(self.kept()),
            self.segments() == all_segments(self.kept()),
            self.spec_current_bytes() == chunks_memory(self.kept()),
            self.spec_current_bytes() <= self.spec_max_bytes(),
    {
    }

    /// The memory budget in bytes.
    pub closed spec fn spec_max_bytes(&self) -> usize {
        self.max_bytes
    }

    /// The estimated memory footprint of the kept chunks.
    pub closed spec fn spec_current_bytes(&self) -> usize {
        self.current_bytes
    }

    /// The number of non-empty batches offered so far.
    pub closed spec fn spec_total_seen(&self) -> u64 {
        self.total_seen
    }
}

/// A chunk's footprint covers its live tokens and the fixed overhead.
pub proof fn lemma_chunk_memory_covers_tokens(c: TokenChunk)
    requires
        c.wf(),
    ensures
        c.memory_size_spec() >= total_len(c@) + 96,
{
    crate::chunk::lemma_total_len_same_lengths(c@, c.layout@);
}

/// The live tokens of all chunks fit in their footprint.
pub proof fn lemma_segments_within_memory(chunks: Seq<TokenChunk>)
    requires
        chunks_wf(chunks),
    ensures
        total_len(all_segments(chunks)) + 96 * chunks.len() <= chunks_memory(chunks),
        chunks_memory(chunks) >= 0,
    decreases chunks.len(),
{
    if chunks.len() > 0 {
        let init = chunks.drop_last();
        assert(chunks_wf(init)) by {
            assert forall|i: int| 0 <= i < init.len() implies (#[trigger] init[i]).wf() by {
                assert(init[i] == chunks[i]);
            }
        }
        lemma_segments_within_memory(init);
        assert(chunks[chunks.len() - 1].wf());
        lemma_chunk_memory_covers_tokens(chunks.last());
        crate::chunk::lemma_total_len_append(all_segments(init), chunks.last()@);
    }
}


/// Footprints are never negative, so a prefix takes no more than the whole.
pub proof fn lemma_memory_prefix(chunks: Seq<TokenChunk>, k: int)
    requires
        0 <= k <= chunks.len(),
    ensures
        chunks_memory(chunks.take(k)) <= chunks_memory(chunks),
    decreases chunks.len(),
{
    if k < chunks.len() {
        assert(chunks.drop_last().take(k) =~= chunks.take(k));
        lemma_memory_prefix(chunks.drop_last(), k);
        assert(chunks.last().memory_size_spec() >= 0);
    } else {
        assert(chunks.take(k) =~= chunks);
    }
}

/// A prefix of well-formed chunks is well formed.
pub proof fn lemma_chunks_wf_take(chunks: Seq<TokenChunk>, k: int)
    requires
        chunks_wf(chunks),
        0 <= k <= chunks.len(),
    ensures
        chunks_wf(chunks.take(k)),
{
    assert forall|i: int| 0 <= i < k implies (#[trigger] chunks.take(k)[i]).wf() by {
        assert(chunks.take(k)[i] == chunks[i]);
    }
}

/// Chunks rewritten in place keep their footprints, and their segments are
/// the rewritten segments.
pub proof fn lemma_chunks_rewritten(old_chunks: Seq<TokenChunk>, new_chunks: Seq<TokenChunk>, l: u32, r: u32, t: u32)
    requires
        old_chunks.len() == new_chunks.len(),
        forall|i: int| 0 <= i < old_chunks.len() ==> {
            &&& (#[trigger] new_chunks[i])@ == old_chunks[i]@.map_values(|s: Seq<u32>| merge_seq(s, l, r, t))
            &&& new_chunks[i].tokens@.len() == old_chunks[i].tokens@.len()
            &&& new_chunks[i].segment_heads@ == old_chunks[i].segment_heads@
        },
    ensures
        chunks_memory(new_chunks) == chunks_memory(old_chunks),
        all_segments(new_chunks) == all_segments(old_chunks).map_values(|s: Seq<u32>| merge_seq(s, l, r, t)),
    decreases old_chunks.len(),
{
    if old_chunks.len() > 0 {
        let n = old_chunks.len() - 1;
        assert(new_chunks[n]@ == old_chunks[n]@.map_values(|s: Seq<u32>| merge_seq(s, l, r, t)));
        lemma_chunks_rewritten(old_chunks.drop_last(), new_chunks.drop_last(), l, r, t);
        assert(all_segments(new_chunks) =~= all_segments(old_chunks).map_values(|s: Seq<u32>| merge_seq(s, l, r, t)));
    }
}

/// `rayon`'s `par_iter_mut().for_each`: the closure, a verified merge, runs
/// once on every chunk.
#[verifier::external_body]
fn par_apply_merge(chunks: &mut Vec<TokenChunk>, left: u32, right: u32, new_token: u32)
    requires
        chunks_wf(old(chunks)@),
    ensures
        final(chunks)@.len() == old(chunks)@.len(),
        forall|i: int| 0 <= i < old(chunks)@.len() ==> {
            &&& (#[trigger] final(chunks)@[i]).wf()
            &&& final(chunks)@[i]@ == old(chunks)@[i]@.map_values(|s: Seq<u32>| merge_seq(s, left, right, new_token))
            &&& final(chunks)@[i].tokens@.len() == old(chunks)@[i].tokens@.len()
            &&& final(chunks)@[i].segment_heads@ == old(chunks)@[i].segment_heads@
        },
{
    chunks.par_iter_mut().for_each(|chunk| chunk.apply_merge(left, right, new_token));
}

/// `rayon`'s `par_iter().map().collect()`: the pairs of each chunk, counted
/// by a verified count, in chunk order.
#[verifier::external_body]
fn par_count_pairs(chunks: &Vec<TokenChunk>) -> (counts: Vec<AHashMap<(u32, u32), u64>>)
    requires
        forall|i: int| 0 <= i < chunks@.len() ==> (#[trigger] chunks@[i]).wf() && total_len(chunks@[i]@) < 0xFFFF_FFFF_FFFF_FFFF,
    ensures
        counts@.len() == chunks@.len(),
        forall|i: int| 0 <= i < chunks@.len() ==> counts_match(count_table(#[trigger] counts@[i]), chunks@[i]@),
{
    chunks.par_iter().map(|chunk| chunk.count_pairs()).collect()
}

impl Reservoir {
    /// Applies the merge `(left, right) -> new_token` to every chunk, in
    /// parallel.
    pub fn apply_merge(&mut self, left: u32, right: u32, new_token: u32)
        requires
            old(self).wf(),
        ensures
            final(self).wf(),
            final(self).segments() == old(self).segments().map_values(|s: Seq<u32>| merge_seq(s, left, right, new_token)),
            final(self).kept().len() == old(self).kept().len(),
            forall|i: int| 0 <= i < old(self).kept().len() ==> (#[trigger] final(self).kept()[i])@ == old(
                self,
            ).kept()[i]@.map_values(|s: Seq<u32>| merge_seq(s, left, right, new_token)),
            final(self).spec_max_bytes() == old(self).spec_max_bytes(),
            final(self).spec_current_bytes() == old(self).spec_current_bytes(),
            final(self).spec_total_seen() == old(self).spec_total_seen(),
    {
        let ghost before = self.chunks@;
        par_apply_merge(&mut self.chunks, left, right, new_token);
        proof {
            lemma_chunks_rewritten(before, self.chunks@, left, right, new_token);
        }
    }

    /// Counts every adjacent pair of every segment of every chunk: one table
    /// per chunk, in parallel, then summed.
    pub fn count_pairs(&self) -> (counts: AHashMap<(u32, u32), u64>)
        requires
            self.wf(),
        ensures
            counts_match(count_table(counts), self.segments()),
    {
        let ghost cs = self.chunks@;
        proof {
            lemma_segments_within_memory(cs);
            assert forall|i: int| 0 <= i < cs.len() implies (#[trigger] cs[i]).wf() && total_len(cs[i]@) < 0xFFFF_FFFF_FFFF_FFFF by {
                lemma_chunk_memory_covers_tokens(cs[i]);
                assert(cs.take(i + 1).drop_last() =~= cs.take(i));
                lemma_chunks_wf_take(cs, i + 1);
                lemma_segments_within_memory(cs.take(i + 1));
                lemma_memory_prefix(cs, i + 1);
                assert(cs.take(i + 1).last() == cs[i]);
                lemma_total_len_append(all_segments(cs.take(i)), cs[i]@);
            }
        }
        let per_chunk = par_count_pairs(&self.chunks);
        let mut total = count_table_new();
        proof {
            assert(count_table(total) =~= Map::<(u32, u32), u64>::empty());
            assert(cs.take(0) =~= Seq::<TokenChunk>::empty());
        }
        let n = per_chunk.len();
        let mut i: usize = 0;
        while i < n
            invariant
                cs == self.chunks@,
                self.wf(),
                n == cs.len(),
                per_chunk@.len() == n,
                0 <= i <= n,
                forall|j: int| 0 <= j < n ==> counts_match(count_table(#[trigger] per_chunk@[j]), cs[j]@),
                counts_match(count_table(total), all_segments(cs.take(i as int))),
                total_len(all_segments(cs)) + 96 * cs.len() <= chunks_memory(cs),
                chunks_memory(cs) <= usize::MAX,
                chunks_wf(cs),
            decreases n - i,
        {
            proof {
                assert(cs.take(i + 1).drop_last() =~= cs.take(i as int));
                assert(cs.take(i + 1).last() == cs[i as int]);
                lemma_chunks_wf_take(cs, i + 1);
                lemma_segments_within_memory(cs.take(i + 1));
                lemma_memory_prefix(cs, i + 1);
                lemma_total_len_append(all_segments(cs.take(i as int)), cs[i as int]@);
            }
            add_counts(&mut total, &per_chunk[i], Ghost(all_segments(cs.take(i as int))), Ghost(cs[i as int]@));
            i = i + 1;
        }
        proof {
            assert(cs.take(n as int) =~= cs);
        }
        total
    }
}


// ---------------------------------------------------------------------------
// Filling the reservoir
// ---------------------------------------------------------------------------

/// What offering a batch to the reservoir did.
pub enum AddOutcome {
    /// The batch was empty and was not counted.
    Empty,
    /// The batch fit in the budget and was kept.
    Stored,
    /// The batch was counted but does not fit; it may replace a kept chunk
    /// by reservoir sampling, with probability kept chunks / batches seen.
    OverBudget(TokenChunk),
}

/// The chunks with chunk `idx` replaced leave the others' footprints.
pub proof fn lemma_memory_update(chunks: Seq<TokenChunk>, idx: int, c: TokenChunk)
    requires
        0 <= idx < chunks.len(),
    ensures
        chunks_memory(chunks.update(idx, c)) == chunks_memory(chunks) - chunks[idx].memory_size_spec() + c.memory_size_spec(),
    decreases chunks.len(),
{
    let u = chunks.update(idx, c);
    if idx == chunks.len() - 1 {
        assert(u.drop_last() =~= chunks.drop_last());
    } else {
        lemma_memory_update(chunks.drop_last(), idx, c);
        assert(u.drop_last() =~= chunks.drop_last().update(idx, c));
    }
}

/// Memory estimate of a chunk built from `n` tokens, bounded from above.
pub open spec fn chunk_memory_bound(n: int) -> int {
    n * 16 + 96 + vstd::layout::size_of::<TokenChunk>()
}

impl Reservoir {
    /// An empty reservoir with a memory budget in bytes.
    pub fn new(max_bytes: usize) -> (r: Self)
        ensures
            r.wf(),
            r.segments() == Seq::<Seq<u32>>::empty(),
            r.kept().len() == 0,
            r.spec_max_bytes() == max_bytes,
            r.spec_current_bytes() == 0,
            r.spec_total_seen() == 0,
    {
        let r = Reservoir { chunks: Vec::new(), max_bytes, current_bytes: 0, total_seen: 0 };
        proof {
            assert(r.chunks@ =~= Seq::<TokenChunk>::empty());
        }
        r
    }

    /// Offers a consolidated batch of tokens. An empty batch is ignored.
    /// Otherwise the batch is counted as seen and made into a chunk, which
    /// is kept when it fits in the budget; when it does not, it is handed
    /// back for reservoir sampling (see `replace_chunk`).
    pub fn add(&mut self, tokens: Vec<u32>) -> (outcome: AddOutcome)
        requires
            old(self).wf(),
            tokens@.len() <= 0x8000_0000,
            old(self).spec_current_bytes() + chunk_memory_bound(tokens@.len() as int) <= usize::MAX,
            old(self).spec_total_seen() < 0xFFFF_FFFF_FFFF_FFFF,
        ensures
            final(self).wf(),
            final(self).spec_max_bytes() == old(self).spec_max_bytes(),
            tokens@.len() == 0 ==> outcome is Empty && *final(self) == *old(self),
            tokens@.len() > 0 ==> {
                &&& final(self).spec_total_seen() == old(self).spec_total_seen() + 1
                &&& match outcome {
                    AddOutcome::Empty => false,
                    AddOutcome::Stored => {
                        &&& final(self).kept().len() == old(self).kept().len() + 1
                        &&& final(self).kept().drop_last() == old(self).kept()
                        &&& final(self).kept().last().tokens@ == tokens@
                        &&& final(self).kept().last()@ == split_segments(tokens@)
                        &&& built_from(final(self).kept().last(), tokens@)
                        &&& final(self).spec_current_bytes() == old(self).spec_current_bytes()
                            + final(self).kept().last().memory_size_spec()
                        &&& final(self).spec_current_bytes() <= final(self).spec_max_bytes()
                        &&& final(self).segments() == old(self).segments() + split_segments(tokens@)
                    },
                    AddOutcome::OverBudget(chunk) => {
                        &&& chunk.wf()
                        &&& chunk.tokens@ == tokens@
                        &&& chunk@ == split_segments(tokens@)
                        &&& built_from(chunk, tokens@)
                        &&& old(self).spec_current_bytes() + chunk.memory_size_spec() > old(self).spec_max_bytes()
                        &&& chunk.memory_size_spec() <= chunk_memory_bound(tokens@.len() as int)
                        &&& final(self).kept() == old(self).kept()
                        &&& final(self).spec_current_bytes() == old(self).spec_current_bytes()
                    },
                }
            },
    {
        if tokens.len() == 0 {
            return AddOutcome::Empty;
        }
        let ghost n = tokens@.len() as int;
        let ghost tv = tokens@;
        let chunk = TokenChunk::new(tokens);
        proof {
            assert(chunk.segment_heads@.len() <= chunk.tokens@.len());
            assert(chunk.memory_size_spec() <= chunk_memory_bound(n));
        }
        let chunk_size = chunk.memory_size();
        self.total_seen = self.total_seen + 1;
        if self.current_bytes + chunk_size <= self.max_bytes {
            self.current_bytes = self.current_bytes + chunk_size;
            let ghost before = self.chunks@;
            self.chunks.push(chunk);
            proof {
                assert(self.chunks@.drop_last() =~= before);
                assert(chunks_wf(self.chunks@)) by {
                    assert forall|i: int| 0 <= i < self.chunks@.len() implies (#[trigger] self.chunks@[i]).wf() by {
                        if i < before.len() {
                            assert(self.chunks@[i] == before[i]);
                        }
                    }
                }
            }
            AddOutcome::Stored
        } else {
            AddOutcome::OverBudget(chunk)
        }
    }

    /// Replaces kept chunk `idx` with a sampled chunk when the reservoir
    /// stays within its budget after the swap; otherwise leaves it as it was
    /// and drops the sampled chunk. Returns whether it replaced.
    pub fn replace_chunk(&mut self, idx: usize, chunk: TokenChunk) -> (replaced: bool)
        requires
            old(self).wf(),
            idx < old(self).kept().len(),
            chunk.wf(),
            old(self).spec_current_bytes() + chunk.memory_size_spec() <= usize::MAX,
        ensures
            final(self).wf(),
            replaced == (old(self).spec_current_bytes() - old(self).kept()[idx as int].memory_size_spec()
                + chunk.memory_size_spec() <= old(self).spec_max_bytes()),
            replaced ==> final(self).kept() == old(self).kept().update(idx as int, chunk),
            replaced ==> final(self).spec_current_bytes() == old(self).spec_current_bytes()
                - old(self).kept()[idx as int].memory_size_spec() + chunk.memory_size_spec(),
            !replaced ==> *final(self) == *old(self),
            final(self).spec_max_bytes() == old(self).spec_max_bytes(),
            final(self).spec_total_seen() == old(self).spec_total_seen(),
    {
        proof {
            lemma_memory_update(self.chunks@, idx as int, chunk);
            assert(self.chunks@[idx as int].wf());
            lemma_chunk_fits(self.chunks@, idx as int);
        }
        let old_size = self.chunks[idx].memory_size();
        let chunk_size = chunk.memory_size();
        let rest = self.current_bytes - old_size;
        if chunk_size > self.max_bytes - rest {
            return false;
        }
        let ghost before = self.chunks@;
        self.current_bytes = rest + chunk_size;
        self.chunks.set(idx, chunk);
        proof {
            assert(chunks_wf(self.chunks@)) by {
                assert forall|i: int| 0 <= i < self.chunks@.len() implies (#[trigger] self.chunks@[i]).wf() by {
                    if i != idx {
                        assert(self.chunks@[i] == before[i]);
                    }
                }
            }
        }
        true
    }

    /// Total number of live tokens across all chunks.
    pub fn total_tokens(&self) -> (n: usize)
        requires
            self.wf(),
        ensures
            n == total_len(self.segments()),
    {
        let ghost cs = self.chunks@;
        proof {
            lemma_segments_within_memory(cs);
        }
        let mut sum: usize = 0;
        let mut i: usize = 0;
        while i < self.chunks.len()
            invariant
                cs == self.chunks@,
                chunks_wf(cs),
                i <= cs.len(),
                sum == total_len(all_segments(cs.take(i as int))),
                total_len(all_segments(cs)) + 96 * cs.len() <= chunks_memory(cs),
                chunks_memory(cs) == self.current_bytes,
            decreases cs.len() - i,
        {
            proof {
                assert(cs.take(i + 1).drop_last() =~= cs.take(i as int));
                assert(cs.take(i + 1).last() == cs[i as int]);
                lemma_total_len_append(all_segments(cs.take(i as int)), cs[i as int]@);
                lemma_chunks_wf_take(cs, i + 1);
                lemma_segments_within_memory(cs.take(i + 1));
                lemma_memory_prefix(cs, i + 1);
                assert(cs[i as int].wf());
                crate::chunk::lemma_total_len_same_lengths(cs[i as int]@, cs[i as int].layout@);
            }
            sum = sum + self.chunks[i].active_count;
            i = i + 1;
        }
        proof {
            assert(cs.take(cs.len() as int) =~= cs);
        }
        sum
    }

    /// Memory usage: the estimated footprint of the kept chunks.
    pub fn memory_usage(&self) -> (bytes: usize)
        ensures
            bytes == self.spec_current_bytes(),
    {
        self.current_bytes
    }

    /// The number of batches offered so far (empty ones not counted).
    pub fn total_seen(&self) -> (n: u64)
        ensures
            n == self.spec_total_seen(),
    {
        self.total_seen
    }

    /// The memory budget in bytes.
    pub fn max_bytes(&self) -> (n: usize)
        ensures
            n == self.spec_max_bytes(),
    {
        self.max_bytes
    }
}

/// A chunk's footprint is part of the whole.
pub proof fn lemma_chunk_fits(chunks: Seq<TokenChunk>, idx: int)
    requires
        chunks_wf(chunks),
        0 <= idx < chunks.len(),
    ensures
        0 <= chunks[idx].memory_size_spec() <= chunks_memory(chunks),
    decreases chunks.len(),
{
    lemma_segments_within_memory(chunks);
    let init = chunks.drop_last();
    assert(chunks_wf(init)) by {
        assert forall|i: int| 0 <= i < init.len() implies (#[trigger] init[i]).wf() by {
            assert(init[i] == chunks[i]);
        }
    }
    lemma_segments_within_memory(init);
    assert(chunks.last().memory_size_spec() >= 0);
    if idx < chunks.len() - 1 {
        lemma_chunk_fits(init, idx);
        assert(init[idx] == chunks[idx]);
    }
}

// ---------------------------------------------------------------------------
// Batching
// ---------------------------------------------------------------------------

/// The sequences, in order, with a sentinel between each two.
pub open spec fn join_with_sentinels(seqs: Seq<Seq<u32>>) -> Seq<u32>
    decreases seqs.len(),
{
    if seqs.len() == 0 {
        Seq::empty()
    } else if seqs.len() == 1 {
        seqs[0]
    } else {
        join_with_sentinels(seqs.drop_last()) + seq![SENTINEL] + seqs.last()
    }
}

/// Accumulates token batches into chunks of at least `MIN_CHUNK_SIZE`
/// tokens, with a sentinel between batches.
pub struct TokenBatcher {
    buffer: Vec<u32>,
}

impl View for TokenBatcher {
    type V = Seq<u32>;

    /// The tokens waiting in the buffer.
    closed spec fn view(&self) -> Seq<u32> {
        self.buffer@
    }
}

impl TokenBatcher {
    /// An empty batcher.
    pub fn new() -> (b: Self)
        ensures
            b@ == Seq::<u32>::empty(),
    {
        TokenBatcher { buffer: Vec::with_capacity(MIN_CHUNK_SIZE * 2) }
    }

    /// Adds a batch of tokens: after a sentinel when the buffer holds tokens
    /// already. When the buffer reaches `MIN_CHUNK_SIZE` tokens it is handed
    /// out whole and starts again empty. An empty batch changes nothing.
    pub fn add(&mut self, tokens: Vec<u32>) -> (full: Option<Vec<u32>>)
        ensures
            tokens@.len() == 0 ==> full is None && final(self)@ == old(self)@,
            tokens@.len() > 0 ==> {
                let joined = if old(self)@.len() > 0 { old(self)@ + seq![SENTINEL] + tokens@ } else { tokens@ };
                match full {
                    Some(batch) => joined.len() >= MIN_CHUNK_SIZE && batch@ == joined && final(self)@.len() == 0,
                    None => joined.len() < MIN_CHUNK_SIZE && final(self)@ == joined,
                }
            },
    {
        if tokens.len() == 0 {
            return None;
        }
        if self.buffer.len() > 0 {
            self.buffer.push(SENTINEL);
        }
        let mut i: usize = 0;
        let ghost start = self.buffer@;
        while i < tokens.len()
            invariant
                i <= tokens@.len(),
                self.buffer@ == start + tokens@.take(i as int),
            decreases tokens@.len() - i,
        {
            self.buffer.push(tokens[i]);
            i = i + 1;
            proof {
                assert(self.buffer@ =~= start + tokens@.take(i as int));
            }
        }
        proof {
            assert(tokens@.take(tokens@.len() as int) =~= tokens@);
        }
        if self.buffer.len() >= MIN_CHUNK_SIZE {
            self.flush()
        } else {
            None
        }
    }

    /// Hands out the buffered tokens, if any, leaving the buffer empty.
    pub fn flush(&mut self) -> (batch: Option<Vec<u32>>)
        ensures
            final(self)@ == Seq::<u32>::empty(),
            old(self)@.len() == 0 ==> batch is None,
            old(self)@.len() > 0 ==> (batch matches Some(b) && b@ == old(self)@),
    {
        if self.buffer.len() > 0 {
            let mut batch: Vec<u32> = Vec::with_capacity(MIN_CHUNK_SIZE * 2);
            std::mem::swap(&mut batch, &mut self.buffer);
            Some(batch)
        } else {
            None
        }
    }
}

/// The token sequences of one line: the merged tokens of each regular
/// pre-token, the empty ones dropped.
pub open spec fn line_token_seqs(
    pattern: Seq<char>,
    line: Seq<char>,
    specials: Seq<Seq<char>>,
    table: Map<(u32, u32), u32>,
    byte_map: Seq<u32>,
) -> Seq<Seq<u32>> {
    merged_pre_tokens(pre_tokens(pattern, line, specials), table, byte_map)
}

/// Each regular pre-token's bytes as tokens, merged to a fixpoint; special
/// pre-tokens and empty results dropped.
pub open spec fn merged_pre_tokens(ps: Seq<Option<Seq<u8>>>, table: Map<(u32, u32), u32>, byte_map: Seq<u32>) -> Seq<Seq<u32>>
    decreases ps.len(),
{
    if ps.len() == 0 {
        Seq::empty()
    } else {
        let prev = merged_pre_tokens(ps.drop_last(), table, byte_map);
        match ps.last() {
            None => prev,
            Some(bytes) => {
                let t = merge_to_fixpoint(bytes_as_tokens(bytes, byte_map), table);
                if t.len() == 0 { prev } else { prev.push(t) }
            },
        }
    }
}

/// The token sequences of the lines, line after line.
pub open spec fn batch_token_seqs(
    pattern: Seq<char>,
    lines: Seq<Seq<char>>,
    specials: Seq<Seq<char>>,
    table: Map<(u32, u32), u32>,
    byte_map: Seq<u32>,
) -> Seq<Seq<u32>>
    decreases lines.len(),
{
    if lines.len() == 0 {
        Seq::empty()
    } else {
        batch_token_seqs(pattern, lines.drop_last(), specials, table, byte_map) + line_token_seqs(
            pattern,
            lines.last(),
            specials,
            table,
            byte_map,
        )
    }
}

/// The sequences of the first lines come first among those of all lines.
pub proof fn lemma_batch_prefix(
    pattern: Seq<char>,
    lines: Seq<Seq<char>>,
    specials: Seq<Seq<char>>,
    table: Map<(u32, u32), u32>,
    byte_map: Seq<u32>,
    k: int,
)
    requires
        0 <= k <= lines.len(),
    ensures
        ({
            let all = batch_token_seqs(pattern, lines, specials, table, byte_map);
            let pre = batch_token_seqs(pattern, lines.take(k), specials, table, byte_map);
            pre.len() <= all.len() && all == pre + all.skip(pre.len() as int)
        }),
    decreases lines.len() - k,
{
    let all = batch_token_seqs(pattern, lines, specials, table, byte_map);
    let pre = batch_token_seqs(pattern, lines.take(k), specials, table, byte_map);
    if k == lines.len() {
        assert(lines.take(k) =~= lines);
        assert(all =~= pre + all.skip(pre.len() as int));
    } else {
        lemma_batch_prefix(pattern, lines, specials, table, byte_map, k + 1);
        let pre1 = batch_token_seqs(pattern, lines.take(k + 1), specials, table, byte_map);
        assert(lines.take(k + 1).drop_last() =~= lines.take(k));
        let line = line_token_seqs(pattern, lines.take(k + 1).last(), specials, table, byte_map);
        assert(pre1 == pre + line);
        assert(all =~= pre + all.skip(pre.len() as int));
    }
}

/// Joined with sentinels, the sequences take their total length plus one
/// sentinel between each two.
pub proof fn lemma_join_len(seqs: Seq<Seq<u32>>)
    ensures
        seqs.len() > 0 ==> join_with_sentinels(seqs).len() + 1 == total_len(seqs) + seqs.len(),
        seqs.len() == 0 ==> join_with_sentinels(seqs).len() == 0,
    decreases seqs.len(),
{
    if seqs.len() > 1 {
        lemma_join_len(seqs.drop_last());
    } else if seqs.len() == 1 {
        assert(seqs.drop_last() =~= Seq::<Seq<u32>>::empty());
        assert(total_len(seqs.drop_last()) == 0);
        assert(seqs.last() == seqs[0]);
    }
}

/// The token sequences of one line.
pub fn line_tokens(
    pt: &PreTokenizer,
    line: &String,
    pair_to_id: &AHashMap<(u32, u32), u32>,
    byte_to_token: &[u32; 256],
    special_tokens: &[String],
) -> (r: Vec<Vec<u32>>)
    requires
        forall|i: int| 0 <= i < special_tokens@.len() ==> (#[trigger] special_tokens@[i])@.len() > 0,
    ensures
        seqs_of(r@) == line_token_seqs(pt@, line@, texts_of(special_tokens@), pair_table(*pair_to_id), byte_to_token@),
{
    let pre = pre_tokenize_with_special_tokens(pt, line.as_str(), special_tokens);
    let ghost pv = pre_token_views(pre@);
    let mut out: Vec<Vec<u32>> = Vec::new();
    let mut i: usize = 0;
    while i < pre.len()
        invariant
            i <= pre@.len(),
            pv == pre_token_views(pre@),
            seqs_of(out@) == merged_pre_tokens(pv.take(i as int), pair_table(*pair_to_id), byte_to_token@),
        decreases pre@.len() - i,
    {
        proof {
            assert(pv.take(i + 1).drop_last() =~= pv.take(i as int));
            assert(pv.take(i + 1).last() == pv[i as int]);
        }
        match &pre[i] {
            PreToken::Regular(bytes) => {
                let tokens = apply_hardcoded_merges(bytes.as_slice(), pair_to_id, byte_to_token);
                if tokens.len() > 0 {
                    let ghost before = out@;
                    out.push(tokens);
                    proof {
                        assert(seqs_of(out@) =~= seqs_of(before).push(tokens@));
                    }
                }
            },
            PreToken::Special(_) => {},
        }
        i = i + 1;
    }
    proof {
        assert(pv.take(pre@.len() as int) =~= pv);
    }
    out
}

/// The contents of each token vector.
pub open spec fn seqs_of(v: Seq<Vec<u32>>) -> Seq<Seq<u32>> {
    v.map_values(|t: Vec<u32>| t@)
}

/// `rayon`'s `par_iter().map().collect()`: the token sequences of each
/// line, computed by a verified function, in line order.
#[verifier::external_body]
fn par_line_tokens(
    lines: &[String],
    pt: &PreTokenizer,
    pair_to_id: &AHashMap<(u32, u32), u32>,
    byte_to_token: &[u32; 256],
    special_tokens: &[String],
) -> (per_line: Vec<Vec<Vec<u32>>>)
    requires
        forall|i: int| 0 <= i < special_tokens@.len() ==> (#[trigger] special_tokens@[i])@.len() > 0,
    ensures
        per_line@.len() == lines@.len(),
        forall|i: int| 0 <= i < lines@.len() ==> seqs_of((#[trigger] per_line@[i])@) == line_token_seqs(
            pt@,
            lines@[i]@,
            texts_of(special_tokens@),
            pair_table(*pair_to_id),
            byte_to_token@,
        ),
{
    lines.par_iter().map(|line| line_tokens(pt, line, pair_to_id, byte_to_token, special_tokens)).collect()
}

/// Each regular pre-token's merged tokens are non-empty.
pub proof fn lemma_merged_nonempty(ps: Seq<Option<Seq<u8>>>, table: Map<(u32, u32), u32>, byte_map: Seq<u32>)
    ensures
        forall|i: int| 0 <= i < merged_pre_tokens(ps, table, byte_map).len()
            ==> (#[trigger] merged_pre_tokens(ps, table, byte_map)[i]).len() > 0,
    decreases ps.len(),
{
    if ps.len() > 0 {
        let prev = merged_pre_tokens(ps.drop_last(), table, byte_map);
        lemma_merged_nonempty(ps.drop_last(), table, byte_map);
        let m = merged_pre_tokens(ps, table, byte_map);
        assert forall|i: int| 0 <= i < m.len() implies (#[trigger] m[i]).len() > 0 by {
            if i < prev.len() {
                assert(m[i] == prev[i]);
            }
        }
    }
}

/// A joined list whose last sequence is non-empty is non-empty.
pub proof fn lemma_join_nonempty(seqs: Seq<Seq<u32>>)
    requires
        seqs.len() > 0,
        seqs.last().len() > 0,
    ensures
        join_with_sentinels(seqs).len() > 0,
{
}

/// Tokenizes a batch of lines in parallel and joins all their token
/// sequences, in order, with a sentinel between each two.
pub fn process_batch_to_tokens(
    pt: &PreTokenizer,
    lines: &[String],
    pair_to_id: &AHashMap<(u32, u32), u32>,
    byte_to_token: &[u32; 256],
    special_tokens: &[String],
) -> (result: Vec<u32>)
    requires
        forall|i: int| 0 <= i < special_tokens@.len() ==> (#[trigger] special_tokens@[i])@.len() > 0,
    ensures
        result@ == join_with_sentinels(
            batch_token_seqs(pt@, texts_of(lines@), texts_of(special_tokens@), pair_table(*pair_to_id), byte_to_token@),
        ),
{
    let ghost table = pair_table(*pair_to_id);
    let ghost specials = texts_of(special_tokens@);
    let ghost texts = texts_of(lines@);
    let per_line = par_line_tokens(lines, pt, pair_to_id, byte_to_token, special_tokens);
    let mut result: Vec<u32> = Vec::new();
    let ghost mut done: Seq<Seq<u32>> = Seq::empty();
    let mut li: usize = 0;
    while li < per_line.len()
        invariant
            li <= per_line@.len(),
            per_line@.len() == lines@.len(),
            texts == texts_of(lines@),
            specials == texts_of(special_tokens@),
            table == pair_table(*pair_to_id),
            forall|i: int| 0 <= i < lines@.len() ==> seqs_of((#[trigger] per_line@[i])@) == line_token_seqs(
                pt@,
                lines@[i]@,
                specials,
                table,
                byte_to_token@,
            ),
            done == batch_token_seqs(pt@, texts.take(li as int), specials, table, byte_to_token@),
            result@ == join_with_sentinels(done),
            result@.len() > 0 <==> done.len() > 0,
        decreases per_line@.len() - li,
    {
        let seqs = &per_line[li];
        let ghost line_seqs = seqs_of(seqs@);
        proof {
            assert(texts.take(li + 1).drop_last() =~= texts.take(li as int));
            assert(texts.take(li + 1).last() == lines@[li as int]@);
            lemma_merged_nonempty(pre_tokens(pt@, lines@[li as int]@, specials), table, byte_to_token@);
            assert(line_seqs.take(0) =~= Seq::<Seq<u32>>::empty());
            assert(done + line_seqs.take(0) =~= done);
        }
        let mut k: usize = 0;
        while k < seqs.len()
            invariant
                k <= seqs@.len(),
                line_seqs == seqs_of(seqs@),
                forall|i: int| 0 <= i < line_seqs.len() ==> (#[trigger] line_seqs[i]).len() > 0,
                result@ == join_with_sentinels(done + line_seqs.take(k as int)),
                result@.len() > 0 <==> (done + line_seqs.take(k as int)).len() > 0,
            decreases seqs@.len() - k,
        {
            let ghost prefix = done + line_seqs.take(k as int);
            let seq_k = &seqs[k];
            proof {
                assert(line_seqs[k as int] == seq_k@);
                assert(line_seqs.take(k + 1) =~= line_seqs.take(k as int).push(seq_k@));
                assert(done + line_seqs.take(k + 1) =~= prefix.push(seq_k@));
            }
            let joined_before = result.len() > 0;
            if joined_before {
                result.push(SENTINEL);
            }
            let mut j: usize = 0;
            let ghost base = result@;
            while j < seq_k.len()
                invariant
                    j <= seq_k@.len(),
                    result@ == base + seq_k@.take(j as int),
                decreases seq_k@.len() - j,
            {
                result.push(seq_k[j]);
                j = j + 1;
                proof {
                    assert(result@ =~= base + seq_k@.take(j as int));
                }
            }
            proof {
                assert(seq_k@.take(seq_k@.len() as int) =~= seq_k@);
                let p2 = prefix.push(seq_k@);
                assert(p2.drop_last() =~= prefix);
                if joined_before {
                    assert(result@ =~= join_with_sentinels(prefix) + seq![SENTINEL] + seq_k@);
                } else {
                    assert(prefix.len() == 0);
                    assert(p2 =~= seq![seq_k@]);
                }
                lemma_join_nonempty(p2);
            }
            k = k + 1;
        }
        proof {
            assert(line_seqs.take(line_seqs.len() as int) =~= line_seqs);
            done = done + line_seqs;
        }
        li = li + 1;
    }
    proof {
        assert(texts.take(texts.len() as int) =~= texts);
    }
    result
}


/// No token of the sequence is the sentinel.
pub open spec fn no_sentinel(s: Seq<u32>) -> bool {
    forall|j: int| 0 <= j < s.len() ==> s[j] != SENTINEL
}

proof fn lemma_split_after_boundary(q: Seq<u32>, b: Seq<u32>)
    requires
        q.len() == 0 || q.last() == SENTINEL,
        b.len() > 0,
        no_sentinel(b),
    ensures
        split_segments(q + b) == split_segments(q).push(b),
    decreases b.len(),
{
    if b.len() == 1 {
        assert((q + b).drop_last() =~= q);
        assert((q + b).last() == b[0]);
        assert(seq![b[0]] =~= b);
    } else {
        let b0 = b.drop_last();
        lemma_split_after_boundary(q, b0);
        assert((q + b).drop_last() =~= q + b0);
        assert((q + b)[(q + b).len() - 2] == b0.last());
        assert(b0.push(b.last()) =~= b);
        assert(split_segments(q + b) =~= split_segments(q).push(b));
    }
}

/// Law: a chunk made from token sequences joined with sentinels has those
/// sequences, and no others, as its segments, so no pair ever spans two of
/// them; this holds when each sequence is non-empty and free of sentinels.
pub proof fn law_joined_sequences_stay_apart(seqs: Seq<Seq<u32>>)
    requires
        forall|i: int| 0 <= i < seqs.len() ==> (#[trigger] seqs[i]).len() > 0 && no_sentinel(seqs[i]),
    ensures
        split_segments(join_with_sentinels(seqs)) == seqs,
    decreases seqs.len(),
{
    if seqs.len() == 1 {
        assert(split_segments(Seq::<u32>::empty()) =~= Seq::<Seq<u32>>::empty());
        lemma_split_after_boundary(Seq::<u32>::empty(), seqs[0]);
        assert(Seq::<u32>::empty() + seqs[0] =~= seqs[0]);
        assert(seqs =~= seq![seqs[0]]);
    } else if seqs.len() > 1 {
        let init = seqs.drop_last();
        assert forall|i: int| 0 <= i < init.len() implies (#[trigger] init[i]).len() > 0 && no_sentinel(init[i]) by {
            assert(init[i] == seqs[i]);
        }
        law_joined_sequences_stay_apart(init);
        let q = join_with_sentinels(init) + seq![SENTINEL];
        assert(q.drop_last() =~= join_with_sentinels(init));
        assert(split_segments(q) == split_segments(join_with_sentinels(init)));
        assert(seqs[seqs.len() - 1].len() > 0);
        lemma_split_after_boundary(q, seqs.last());
        assert(seqs =~= init.push(seqs.last()));
    } else {
        assert(split_segments(Seq::<u32>::empty()) =~= Seq::<Seq<u32>>::empty());
    }
}

impl Reservoir {
    /// Whether every live token of every chunk is below `n`.
    pub fn all_below(&self, n: u32) -> (r: bool)
        requires
            self.wf(),
        ensures
            r == crate::trainer::tokens_below(self.segments(), n as int),
    {
        let ghost cs = self.chunks@;
        let mut i: usize = 0;
        while i < self.chunks.len()
            invariant
                cs == self.chunks@,
                chunks_wf(cs),
                i <= cs.len(),
                crate::trainer::tokens_below(all_segments(cs.take(i as int)), n as int),
            decreases cs.len() - i,
        {
            proof {
                assert(cs.take(i + 1).drop_last() =~= cs.take(i as int));
                assert(cs.take(i + 1).last() == cs[i as int]);
                assert(cs[i as int].wf());
            }
            let ok = self.chunks[i].all_below(n);
            proof {
                lemma_tokens_below_append(all_segments(cs.take(i as int)), cs[i as int]@, n as int);
            }
            if !ok {
                proof {
                    lemma_chunks_prefix_segments(cs, i + 1);
                    lemma_tokens_below_append(all_segments(cs.take(i + 1)), all_segments(cs.skip(i + 1)), n as int);
                }
                return false;
            }
            i = i + 1;
        }
        proof {
            assert(cs.take(cs.len() as int) =~= cs);
        }
        true
    }
}

/// Tokens below a bound on two lists of segments are below it on both.
pub proof fn lemma_tokens_below_append(a: Seq<Seq<u32>>, b: Seq<Seq<u32>>, n: int)
    ensures
        crate::trainer::tokens_below(a + b, n) <==> crate::trainer::tokens_below(a, n) && crate::trainer::tokens_below(b, n),
{
    let ab = a + b;
    if crate::trainer::tokens_below(ab, n) {
        assert forall|k: int, j: int| 0 <= k < b.len() && 0 <= j < b[k].len() implies b[k][j] < n by {
            assert(ab[a.len() + k] == b[k]);
        }
        assert forall|k: int, j: int| 0 <= k < a.len() && 0 <= j < a[k].len() implies a[k][j] < n by {
            assert(ab[k] == a[k]);
        }
    }
    if crate::trainer::tokens_below(a, n) && crate::trainer::tokens_below(b, n) {
        assert forall|k: int, j: int| 0 <= k < ab.len() && 0 <= j < ab[k].len() implies ab[k][j] < n by {
            if k < a.len() {
                assert(ab[k] == a[k]);
            } else {
                assert(ab[k] == b[k - a.len()]);
            }
        }
    }
}

/// The segments of the first chunks come first among those of all chunks.
pub proof fn lemma_chunks_prefix_segments(cs: Seq<TokenChunk>, k: int)
    requires
        0 <= k <= cs.len(),
    ensures
        all_segments(cs) == all_segments(cs.take(k)) + all_segments(cs.skip(k)),
    decreases cs.len() - k,
{
    if k == cs.len() {
        assert(cs.take(k) =~= cs);
        assert(cs.skip(k) =~= Seq::<TokenChunk>::empty());
        assert(all_segments(cs) + Seq::<Seq<u32>>::empty() =~= all_segments(cs));
    } else {
        lemma_chunks_prefix_segments(cs, k + 1);
        lemma_segments_concat(cs.take(k), cs.skip(k));
        assert(cs.take(k) + cs.skip(k) =~= cs);
    }
}

/// The segments of two lists of chunks, one after the other.
pub proof fn lemma_segments_concat(a: Seq<TokenChunk>, b: Seq<TokenChunk>)
    ensures
        all_segments(a + b) == all_segments(a) + all_segments(b),
    decreases b.len(),
{
    if b.len() == 0 {
        assert(a + b =~= a);
        assert(all_segments(b) =~= Seq::<Seq<u32>>::empty());
        assert(all_segments(a) + Seq::<Seq<u32>>::empty() =~= all_segments(a));
    } else {
        lemma_segments_concat(a, b.drop_last());
        assert((a + b).drop_last() =~= a + b.drop_last());
        assert((a + b).last() == b.last());
        assert(all_segments(a + b) =~= all_segments(a) + all_segments(b));
    }
}

} // verus!
