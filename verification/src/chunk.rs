//! Token chunks: dense token storage with index-linked segments, the unit
//! on which merges are applied and pairs are counted.
use vstd::prelude::*;
use ahash::AHashMap;
use crate::maps::{count_table, count_table_entries, count_table_get, count_table_insert, count_table_new};

verus! {

/// Marks a boundary between documents inside a chunk. It never takes part
/// in a pair.
pub const SENTINEL: u32 = 0xFFFF_FFFFu32;

// ---------------------------------------------------------------------------
// Mathematical model
// ---------------------------------------------------------------------------

/// Sum of the lengths of a sequence of sequences.
pub open spec fn total_len<A>(segs: Seq<Seq<A>>) -> nat
    decreases segs.len(),
{
    if segs.len() == 0 {
        0
    } else {
        total_len(segs.drop_last()) + segs.last().len()
    }
}

/// The maximal runs of non-sentinel tokens of `t`, in order.
pub open spec fn split_segments(t: Seq<u32>) -> Seq<Seq<u32>>
    decreases t.len(),
{
    if t.len() == 0 {
        Seq::empty()
    } else {
        let before = split_segments(t.drop_last());
        let x = t.last();
        if x == SENTINEL {
            before
        } else if t.len() >= 2 && t[t.len() - 2] != SENTINEL {
            before.update(before.len() - 1, before.last().push(x))
        } else {
            before.push(seq![x])
        }
    }
}

/// Greedy left-to-right replacement of the adjacent pair `(l, r)` by `t`:
/// a replaced pair is never examined again.
pub open spec fn merge_seq(s: Seq<u32>, l: u32, r: u32, t: u32) -> Seq<u32>
    decreases s.len(),
{
    if s.len() < 2 {
        s
    } else if s[0] == l && s[1] == r {
        seq![t] + merge_seq(s.skip(2), l, r, t)
    } else {
        seq![s[0]] + merge_seq(s.skip(1), l, r, t)
    }
}

/// Number of adjacent positions of `s` that hold `(a, b)`.
pub open spec fn occurrences(s: Seq<u32>, a: u32, b: u32) -> nat
    decreases s.len(),
{
    if s.len() < 2 {
        0
    } else {
        occurrences(s.drop_last(), a, b) + (if s[s.len() - 2] == a && s[s.len() - 1] == b {
            1nat
        } else {
            0nat
        })
    }
}

/// Number of adjacent positions holding `(a, b)`, over all segments.
pub open spec fn occurrences_in(segs: Seq<Seq<u32>>, a: u32, b: u32) -> nat
    decreases segs.len(),
{
    if segs.len() == 0 {
        0
    } else {
        occurrences_in(segs.drop_last(), a, b) + occurrences(segs.last(), a, b)
    }
}

/// Positions `ps` form one linked segment of `next` / `prev`.
pub open spec fn linked(next: Seq<i32>, prev: Seq<i32>, ps: Seq<int>) -> bool {
    &&& ps.len() > 0
    &&& forall|j: int| 0 <= j < ps.len() ==> 0 <= #[trigger] ps[j] < next.len()
    &&& forall|i: int, j: int| 0 <= i < j < ps.len() ==> ps[i] < ps[j]
    &&& forall|j: int| 0 <= j < ps.len() - 1 ==> next[#[trigger] ps[j]] == ps[j + 1]
    &&& next[ps.last()] == -1
    &&& prev[ps[0]] == -1
    &&& forall|j: int| 0 < j < ps.len() ==> prev[#[trigger] ps[j]] == ps[j - 1]
}

/// Every segment is linked, and segments follow each other in index order.
pub open spec fn layout_ok(next: Seq<i32>, prev: Seq<i32>, lay: Seq<Seq<int>>) -> bool {
    &&& forall|k: int| 0 <= k < lay.len() ==> linked(next, prev, #[trigger] lay[k])
    &&& forall|k1: int, k2: int|
        0 <= k1 < k2 < lay.len() ==> (#[trigger] lay[k1]).last() < (#[trigger] lay[k2])[0]
}

/// The tokens that the positions of a layout hold.
pub open spec fn layout_tokens(tokens: Seq<u32>, lay: Seq<Seq<int>>) -> Seq<Seq<u32>> {
    lay.map_values(|ps: Seq<int>| ps.map_values(|p: int| tokens[p]))
}

// ---------------------------------------------------------------------------
// Lemmas on the model
// ---------------------------------------------------------------------------

pub proof fn lemma_total_len_push<A>(segs: Seq<Seq<A>>, s: Seq<A>)
    ensures
        total_len(segs.push(s)) == total_len(segs) + s.len(),
{
    assert(segs.push(s).drop_last() =~= segs);
}

pub proof fn lemma_total_len_update<A>(segs: Seq<Seq<A>>, k: int, s: Seq<A>)
    requires
        0 <= k < segs.len(),
    ensures
        total_len(segs.update(k, s)) + segs[k].len() == total_len(segs) + s.len(),
    decreases segs.len(),
{
    if k == segs.len() - 1 {
        assert(segs.update(k, s).drop_last() =~= segs.drop_last());
    } else {
        lemma_total_len_update(segs.drop_last(), k, s);
        assert(segs.update(k, s).drop_last() =~= segs.drop_last().update(k, s));
    }
}

pub proof fn lemma_total_len_same_lengths<A, B>(a: Seq<Seq<A>>, b: Seq<Seq<B>>)
    requires
        a.len() == b.len(),
        forall|k: int| 0 <= k < a.len() ==> (#[trigger] a[k]).len() == b[k].len(),
    ensures
        total_len(a) == total_len(b),
    decreases a.len(),
{
    if a.len() > 0 {
        lemma_total_len_same_lengths(a.drop_last(), b.drop_last());
    }
}

pub proof fn lemma_split_segments_nonempty(t: Seq<u32>)
    requires
        t.len() > 0,
        t.last() != SENTINEL,
    ensures
        split_segments(t).len() > 0,
        split_segments(t).last().len() > 0,
        split_segments(t).last().last() == t.last(),
    decreases t.len(),
{
    let before = split_segments(t.drop_last());
    if t.len() >= 2 && t[t.len() - 2] != SENTINEL {
        lemma_split_segments_nonempty(t.drop_last());
    }
}

/// Segments are never empty.
pub proof fn lemma_split_segments_nonempty_all(t: Seq<u32>)
    ensures
        forall|k: int| 0 <= k < split_segments(t).len() ==> (#[trigger] split_segments(t)[k]).len() > 0,
    decreases t.len(),
{
    if t.len() > 0 {
        lemma_split_segments_nonempty_all(t.drop_last());
        let before = split_segments(t.drop_last());
        let x = t.last();
        let s = split_segments(t);
        assert forall|k: int| 0 <= k < s.len() implies (#[trigger] s[k]).len() > 0 by {
            if x == SENTINEL {
            } else if t.len() >= 2 && t[t.len() - 2] != SENTINEL {
                lemma_split_segments_nonempty(t.drop_last());
                if k == before.len() - 1 {
                    assert(s[k] == before.last().push(x));
                } else {
                    assert(s[k] == before[k]);
                }
            } else {
                if k < before.len() {
                    assert(s[k] == before[k]);
                }
            }
        }
    }
}


/// Frame: a linked segment stays linked when its own entries are unchanged.
pub proof fn lemma_linked_frame(
    next: Seq<i32>,
    prev: Seq<i32>,
    next2: Seq<i32>,
    prev2: Seq<i32>,
    ps: Seq<int>,
)
    requires
        linked(next, prev, ps),
        next2.len() == next.len(),
        forall|j: int| 0 <= j < ps.len() ==> next2[#[trigger] ps[j]] == next[ps[j]] && prev2[ps[j]] == prev[ps[j]],
    ensures
        linked(next2, prev2, ps),
{
    assert(next2[ps.last()] == next[ps.last()]);
    assert(prev2[ps[0]] == prev[ps[0]]);
}


pub proof fn lemma_layout_tokens_push(tokens: Seq<u32>, lay: Seq<Seq<int>>, ps: Seq<int>)
    ensures
        layout_tokens(tokens, lay.push(ps)) == layout_tokens(tokens, lay).push(
            ps.map_values(|p: int| tokens[p]),
        ),
{
    assert(layout_tokens(tokens, lay.push(ps)) =~= layout_tokens(tokens, lay).push(
        ps.map_values(|p: int| tokens[p]),
    ));
}

pub proof fn lemma_layout_tokens_update(tokens: Seq<u32>, lay: Seq<Seq<int>>, k: int, ps: Seq<int>)
    requires
        0 <= k < lay.len(),
    ensures
        layout_tokens(tokens, lay.update(k, ps)) == layout_tokens(tokens, lay).update(
            k,
            ps.map_values(|p: int| tokens[p]),
        ),
{
    assert(layout_tokens(tokens, lay.update(k, ps)) =~= layout_tokens(tokens, lay).update(
        k,
        ps.map_values(|p: int| tokens[p]),
    ));
}

/// Appending a fresh single-position segment after all others.
pub proof fn lemma_layout_push(next: Seq<i32>, prev: Seq<i32>, lay: Seq<Seq<int>>, i: int)
    requires
        layout_ok(next, prev, lay),
        0 <= i < next.len(),
        next[i] == -1,
        prev[i] == -1,
        lay.len() > 0 ==> lay.last().last() < i,
    ensures
        layout_ok(next, prev, lay.push(seq![i])),
{
    let nl = lay.push(seq![i]);
    assert forall|k: int| 0 <= k < nl.len() implies linked(next, prev, #[trigger] nl[k]) by {
        if k < lay.len() {
            assert(nl[k] == lay[k]);
        } else {
            assert(nl[k] =~= seq![i]);
        }
    }
    assert forall|k1: int, k2: int|
        0 <= k1 < k2 < nl.len() implies (#[trigger] nl[k1]).last() < (#[trigger] nl[k2])[0] by {
        assert(nl[k1] == lay[k1]);
        if k2 < lay.len() {
            assert(nl[k2] == lay[k2]);
        } else {
            if k1 < lay.len() - 1 {
                assert(lay[k1].last() < lay.last()[0]);
            }
            assert(linked(next, prev, lay.last()));
            assert(lay.last()[0] <= lay.last().last());
        }
    }
}

/// Linking position `i` after the last position of the last segment.
#[verifier::spinoff_prover]
#[verifier::rlimit(40)]
pub proof fn lemma_layout_extend_last(next: Seq<i32>, prev: Seq<i32>, lay: Seq<Seq<int>>, i: int)
    requires
        layout_ok(next, prev, lay),
        lay.len() > 0,
        lay.last().last() < i < next.len(),
        next.len() == prev.len(),
        next.len() <= 0x8000_0000,
        next[i] == -1,
    ensures
        layout_ok(
            next.update(lay.last().last(), i as i32),
            prev.update(i, lay.last().last() as i32),
            lay.update(lay.len() - 1, lay.last().push(i)),
        ),
{
    let last = lay.last();
    let k_last = lay.len() - 1;
    let nl = last.push(i);
    let lay2 = lay.update(k_last, nl);
    let next2 = next.update(last.last(), i as i32);
    let prev2 = prev.update(i, last.last() as i32);
    assert(linked(next, prev, last));
    assert forall|k: int| 0 <= k < lay2.len() implies linked(next2, prev2, #[trigger] lay2[k]) by {
        if k < k_last {
            assert(lay2[k] == lay[k]);
            assert(lay[k].last() < last[0]);
            assert(linked(next, prev, lay[k]));
            assert forall|j: int| 0 <= j < lay[k].len() implies next2[#[trigger] lay[k][j]] == next[lay[k][j]] && prev2[lay[k][j]] == prev[lay[k][j]] by {
                assert(lay[k][j] <= lay[k].last());
                assert(last[0] <= last.last());
            }
            lemma_linked_frame(next, prev, next2, prev2, lay[k]);
        } else {
            assert(lay2[k] == nl);
            assert forall|j: int| 0 <= j < nl.len() - 1 implies next2[#[trigger] nl[j]] == nl[j + 1] by {
                if j < nl.len() - 2 {
                    assert(nl[j] == last[j]);
                    assert(last[j] < last.last());
                }
            }
            assert forall|j: int| 0 < j < nl.len() implies prev2[#[trigger] nl[j]] == nl[j - 1] by {
                if j < nl.len() - 1 {
                    assert(nl[j] == last[j]);
                }
            }
            assert(nl[0] == last[0]);
            assert(last[0] <= last.last());
            assert forall|a: int, b: int| 0 <= a < b < nl.len() implies nl[a] < nl[b] by {
                if b < nl.len() - 1 {
                    assert(nl[b] == last[b]);
                }
                assert(nl[a] == last[a]);
                assert(last[a] <= last.last());
            }
            assert forall|j: int| 0 <= j < nl.len() implies 0 <= #[trigger] nl[j] < next2.len() by {
                if j < nl.len() - 1 {
                    assert(nl[j] == last[j]);
                }
            }
        }
    }
    assert forall|k1: int, k2: int|
        0 <= k1 < k2 < lay2.len() implies (#[trigger] lay2[k1]).last() < (#[trigger] lay2[k2])[0] by {
        assert(lay2[k1] == lay[k1]);
        if k2 < k_last {
            assert(lay2[k2] == lay[k2]);
        } else {
            assert(lay2[k2][0] == lay[k2][0]);
        }
    }
}


/// After a segment is rewritten in place, the layout with the new segment
/// is still well formed.
pub proof fn lemma_merge_segment_done(
    next: Seq<i32>,
    prev: Seq<i32>,
    n0: Seq<i32>,
    p0: Seq<i32>,
    lay: Seq<Seq<int>>,
    k: int,
    q: Seq<int>,
)
    requires
        layout_ok(n0, p0, lay),
        0 <= k < lay.len(),
        next.len() == n0.len(),
        prev.len() == p0.len(),
        linked(next, prev, q),
        q[0] == lay[k][0],
        q.last() <= lay[k].last(),
        forall|p: int|
            0 <= p < n0.len() && (p < lay[k][0] || p > lay[k].last()) ==> next[p] == n0[p]
                && prev[p] == p0[p],
    ensures
        layout_ok(next, prev, lay.update(k, q)),
{
    let lay2 = lay.update(k, q);
    assert(linked(n0, p0, lay[k]));
    assert forall|kk: int| 0 <= kk < lay2.len() implies linked(next, prev, #[trigger] lay2[kk]) by {
        if kk != k {
            assert(lay2[kk] == lay[kk]);
            assert(linked(n0, p0, lay[kk]));
            assert forall|j: int| 0 <= j < lay[kk].len() implies next[#[trigger] lay[kk][j]] == n0[lay[kk][j]] && prev[lay[kk][j]] == p0[lay[kk][j]] by {
                assert(lay[kk][0] <= lay[kk][j] <= lay[kk].last());
                if kk < k {
                    assert(lay[kk].last() < lay[k][0]);
                } else {
                    assert(lay[k].last() < lay[kk][0]);
                }
            }
            lemma_linked_frame(n0, p0, next, prev, lay[kk]);
        }
    }
    assert forall|k1: int, k2: int|
        0 <= k1 < k2 < lay2.len() implies (#[trigger] lay2[k1]).last() < (#[trigger] lay2[k2])[0] by {
        assert(lay[k1].last() < lay[k2][0]);
        if k1 == k {
            assert(lay2[k1].last() <= lay[k1].last());
        }
        if k2 == k {
            assert(lay2[k2][0] == lay[k2][0]);
        }
    }
}

/// The tokens seen through a layout whose segment `k` was rewritten.
pub proof fn lemma_merge_segment_view(
    n0: Seq<i32>,
    p0: Seq<i32>,
    t0: Seq<u32>,
    t1: Seq<u32>,
    lay: Seq<Seq<int>>,
    k: int,
    q: Seq<int>,
    merged: Seq<u32>,
)
    requires
        layout_ok(n0, p0, lay),
        0 <= k < lay.len(),
        t1.len() == t0.len(),
        n0.len() == t0.len(),
        q.map_values(|p: int| t1[p]) == merged,
        forall|p: int|
            0 <= p < t0.len() && (p < lay[k][0] || p > lay[k].last()) ==> t1[p] == t0[p],
    ensures
        layout_tokens(t1, lay.update(k, q)) == layout_tokens(t0, lay).update(k, merged),
{
    let lhs = layout_tokens(t1, lay.update(k, q));
    let rhs = layout_tokens(t0, lay).update(k, merged);
    assert forall|kk: int| 0 <= kk < lhs.len() implies lhs[kk] == rhs[kk] by {
        if kk != k {
            assert(linked(n0, p0, lay[kk]));
            assert(linked(n0, p0, lay[k]));
            assert forall|j: int| 0 <= j < lay[kk].len() implies t1[lay[kk][j]] == t0[lay[kk][j]] by {
                assert(lay[kk][0] <= lay[kk][j] <= lay[kk].last());
                if kk < k {
                    assert(lay[kk].last() < lay[k][0]);
                } else {
                    assert(lay[k].last() < lay[kk][0]);
                }
            }
            assert(lay[kk].map_values(|p: int| t1[p]) =~= lay[kk].map_values(|p: int| t0[p]));
        }
    }
    assert(lhs =~= rhs);
}



pub proof fn lemma_occurrences_le(s: Seq<u32>, a: u32, b: u32)
    ensures
        occurrences(s, a, b) <= s.len(),
    decreases s.len(),
{
    if s.len() >= 2 {
        lemma_occurrences_le(s.drop_last(), a, b);
    }
}

pub proof fn lemma_occurrences_in_le(segs: Seq<Seq<u32>>, a: u32, b: u32)
    ensures
        occurrences_in(segs, a, b) <= total_len(segs),
    decreases segs.len(),
{
    if segs.len() > 0 {
        lemma_occurrences_in_le(segs.drop_last(), a, b);
        lemma_occurrences_le(segs.last(), a, b);
    }
}

/// Pair counts agree with a table of counts: exactly the pairs that occur
/// are present, with their number of occurrences.
pub open spec fn counts_match(table: Map<(u32, u32), u64>, segs: Seq<Seq<u32>>) -> bool {
    forall|p: (u32, u32)|
        (#[trigger] table.contains_key(p) <==> occurrences_in(segs, p.0, p.1) > 0) && (table.contains_key(p)
            ==> table[p] == occurrences_in(segs, p.0, p.1))
}

/// One more adjacent pair `(x, y)` seen at the end of the last segment.
pub proof fn lemma_counts_step(
    table: Map<(u32, u32), u64>,
    base: Seq<Seq<u32>>,
    s: Seq<u32>,
    j: int,
)
    requires
        counts_match(table, base.push(s.take(j + 1))),
        0 <= j < s.len() - 1,
        occurrences_in(base.push(s.take(j + 1)), s[j], s[j + 1]) < 0xFFFF_FFFF_FFFF_FFFF,
    ensures
        counts_match(
            table.insert(
                (s[j], s[j + 1]),
                (occurrences_in(base.push(s.take(j + 1)), s[j], s[j + 1]) + 1) as u64,
            ),
            base.push(s.take(j + 2)),
        ),
{
    let x = s[j];
    let y = s[j + 1];
    let old_segs = base.push(s.take(j + 1));
    let new_segs = base.push(s.take(j + 2));
    assert(old_segs.drop_last() =~= base);
    assert(new_segs.drop_last() =~= base);
    assert(s.take(j + 2).drop_last() =~= s.take(j + 1));
    let t2 = table.insert((x, y), (occurrences_in(old_segs, x, y) + 1) as u64);
    assert forall|p: (u32, u32)|
        (#[trigger] t2.contains_key(p) <==> occurrences_in(new_segs, p.0, p.1) > 0) && (t2.contains_key(p)
            ==> t2[p] == occurrences_in(new_segs, p.0, p.1)) by {
        assert(occurrences_in(new_segs, p.0, p.1) == occurrences_in(base, p.0, p.1) + occurrences(s.take(j + 2), p.0, p.1));
        assert(occurrences_in(old_segs, p.0, p.1) == occurrences_in(base, p.0, p.1) + occurrences(s.take(j + 1), p.0, p.1));
        assert(s.take(j + 2)[j] == x && s.take(j + 2)[j + 1] == y);
        if p == (x, y) {
        } else {
            assert(table.contains_key(p) <==> occurrences_in(old_segs, p.0, p.1) > 0);
        }
    }
}

/// Starting a new segment changes no count.
pub proof fn lemma_counts_start(table: Map<(u32, u32), u64>, base: Seq<Seq<u32>>, s: Seq<u32>)
    requires
        counts_match(table, base),
        s.len() > 0,
    ensures
        counts_match(table, base.push(s.take(1))),
{
    let segs = base.push(s.take(1));
    assert(segs.drop_last() =~= base);
    assert forall|p: (u32, u32)| occurrences_in(segs, p.0, p.1) == occurrences_in(base, p.0, p.1) by {
    }
}

/// Finishing a segment: its full prefix is the segment itself.
pub proof fn lemma_counts_finish(table: Map<(u32, u32), u64>, base: Seq<Seq<u32>>, s: Seq<u32>)
    requires
        counts_match(table, base.push(s.take(s.len() as int))),
    ensures
        counts_match(table, base.push(s)),
{
    assert(s.take(s.len() as int) =~= s);
}

pub proof fn lemma_occurrences_in_append(a: Seq<Seq<u32>>, b: Seq<Seq<u32>>, x: u32, y: u32)
    ensures
        occurrences_in(a + b, x, y) == occurrences_in(a, x, y) + occurrences_in(b, x, y),
    decreases b.len(),
{
    if b.len() == 0 {
        assert(a + b =~= a);
    } else {
        assert((a + b).drop_last() =~= a + b.drop_last());
        lemma_occurrences_in_append(a, b.drop_last(), x, y);
    }
}

pub proof fn lemma_total_len_append<A>(a: Seq<Seq<A>>, b: Seq<Seq<A>>)
    ensures
        total_len(a + b) == total_len(a) + total_len(b),
    decreases b.len(),
{
    if b.len() == 0 {
        assert(a + b =~= a);
    } else {
        assert((a + b).drop_last() =~= a + b.drop_last());
        lemma_total_len_append(a, b.drop_last());
    }
}

// ---------------------------------------------------------------------------
// The state of a merge walk over one segment
// ---------------------------------------------------------------------------
//
// The walk over the old positions `pp` of one segment has consumed `i` of
// them and finalized the new positions `q`; `cur` is the next old position
// (-1 once all are consumed).

/// Positions strictly increasing and within `0..len`.
#[verifier::opaque]
pub open spec fn ascending_in(pp: Seq<int>, len: int) -> bool {
    &&& pp.len() > 0
    &&& forall|j: int| 0 <= j < pp.len() ==> 0 <= #[trigger] pp[j] < len
    &&& forall|a: int, b: int| 0 <= a < b < pp.len() ==> pp[a] < pp[b]
}

#[verifier::opaque]
pub open spec fn walk_shape(pp: Seq<int>, i: int, q: Seq<int>, cur: i32) -> bool {
    let m = pp.len() as int;
    &&& 0 <= i <= m
    &&& q.len() <= i
    &&& (i < m) == (cur >= 0)
    &&& i < m ==> cur == pp[i]
    &&& forall|a: int, b: int| 0 <= a < b < q.len() ==> q[a] < q[b]
    &&& forall|j: int| 0 <= j < q.len() ==> pp[0] <= #[trigger] q[j] <= pp.last()
    &&& q.len() > 0 ==> q[0] == pp[0]
    &&& q.len() == 0 ==> i == 0
    &&& i < m && q.len() > 0 ==> q.last() < pp[i]
}

#[verifier::opaque]
pub open spec fn walk_tokens(
    tk: Seq<u32>,
    t0: Seq<u32>,
    pp: Seq<int>,
    i: int,
    q: Seq<int>,
    l: u32,
    r: u32,
    t: u32,
) -> bool {
    let vals = pp.map_values(|p: int| t0[p]);
    &&& merge_seq(vals, l, r, t) == q.map_values(|p: int| tk[p]) + merge_seq(vals.skip(i), l, r, t)
    &&& forall|j: int| i <= j < pp.len() ==> tk[#[trigger] pp[j]] == t0[pp[j]]
}

#[verifier::opaque]
pub open spec fn walk_next(nx: Seq<i32>, pp: Seq<int>, i: int, q: Seq<int>) -> bool {
    let m = pp.len() as int;
    &&& forall|j: int| 0 <= j < q.len() - 1 ==> nx[#[trigger] q[j]] == q[j + 1]
    &&& q.len() > 0 ==> nx[q.last()] == (if i < m { pp[i] as i32 } else { -1i32 })
    &&& forall|j: int| i <= j < m - 1 ==> nx[#[trigger] pp[j]] == pp[j + 1]
    &&& i < m ==> nx[pp[m - 1]] == -1
}

#[verifier::opaque]
pub open spec fn walk_prev(pv: Seq<i32>, pp: Seq<int>, i: int, q: Seq<int>) -> bool {
    let m = pp.len() as int;
    &&& q.len() > 0 ==> pv[q[0]] == -1
    &&& forall|j: int| 0 < j < q.len() ==> pv[#[trigger] q[j]] == q[j - 1]
    &&& i < m ==> pv[pp[i]] == (if q.len() > 0 { q.last() as i32 } else { -1i32 })
    &&& forall|j: int| i < j < m ==> pv[#[trigger] pp[j]] == pp[j - 1]
}

#[verifier::opaque]
pub open spec fn walk_frame(
    tk: Seq<u32>,
    nx: Seq<i32>,
    pv: Seq<i32>,
    t0: Seq<u32>,
    n0: Seq<i32>,
    p0: Seq<i32>,
    pp: Seq<int>,
) -> bool {
    forall|p: int|
        0 <= p < t0.len() && (p < pp[0] || p > pp.last()) ==> tk[p] == t0[p] && nx[p] == n0[p]
            && pv[p] == p0[p]
}

pub open spec fn walk_inv(
    tk: Seq<u32>,
    nx: Seq<i32>,
    pv: Seq<i32>,
    t0: Seq<u32>,
    n0: Seq<i32>,
    p0: Seq<i32>,
    pp: Seq<int>,
    i: int,
    q: Seq<int>,
    cur: i32,
    l: u32,
    r: u32,
    t: u32,
) -> bool {
    &&& ascending_in(pp, t0.len() as int)
    &&& tk.len() == t0.len() && nx.len() == t0.len() && pv.len() == t0.len()
    &&& walk_shape(pp, i, q, cur)
    &&& walk_tokens(tk, t0, pp, i, q, l, r, t)
    &&& walk_next(nx, pp, i, q)
    &&& walk_prev(pv, pp, i, q)
    &&& walk_frame(tk, nx, pv, t0, n0, p0, pp)
}

pub proof fn lemma_ascending_facts(pp: Seq<int>, len: int, a: int, b: int)
    requires
        ascending_in(pp, len),
        0 <= a < pp.len(),
        0 <= b < pp.len(),
    ensures
        pp.len() > 0,
        0 <= pp[a] < len,
        0 <= pp[b] < len,
        a < b ==> pp[a] < pp[b],
        pp[0] <= pp[a] <= pp.last(),
        pp[0] <= pp[b] <= pp.last(),
{
    reveal(ascending_in);
    if b > 0 {
        assert(pp[0] < pp[b]);
    }
    if b < pp.len() - 1 {
        assert(pp[b] < pp[pp.len() - 1]);
    }
    if a > 0 {
        assert(pp[0] < pp[a]);
    }
    if a < pp.len() - 1 {
        assert(pp[a] < pp[pp.len() - 1]);
    }
}

pub proof fn lemma_walk_start(t0: Seq<u32>, n0: Seq<i32>, p0: Seq<i32>, pp: Seq<int>, l: u32, r: u32, t: u32)
    requires
        linked(n0, p0, pp),
        n0.len() == t0.len(),
        p0.len() == t0.len(),
        t0.len() <= 0x8000_0000,
    ensures
        walk_inv(t0, n0, p0, t0, n0, p0, pp, 0, Seq::empty(), pp[0] as i32, l, r, t),
{
    reveal(ascending_in);
    reveal(walk_shape);
    reveal(walk_tokens);
    reveal(walk_next);
    reveal(walk_prev);
    reveal(walk_frame);
    let vals = pp.map_values(|p: int| t0[p]);
    assert(vals.skip(0) =~= vals);
    assert(Seq::<int>::empty().map_values(|p: int| t0[p]) =~= Seq::<u32>::empty());
    assert(0 <= pp[0] < n0.len());
}

/// What the walk state says of the current position.
pub proof fn lemma_walk_facts(
    tk: Seq<u32>, nx: Seq<i32>, pv: Seq<i32>, t0: Seq<u32>, n0: Seq<i32>, p0: Seq<i32>,
    pp: Seq<int>, i: int, q: Seq<int>, cur: i32, l: u32, r: u32, t: u32,
)
    requires
        walk_inv(tk, nx, pv, t0, n0, p0, pp, i, q, cur, l, r, t),
        cur >= 0,
    ensures
        0 <= i < pp.len(),
        cur == pp[i],
        0 <= cur < tk.len(),
        tk[cur as int] == t0[pp[i]],
        i < pp.len() - 1 ==> nx[cur as int] == pp[i + 1] && 0 <= pp[i + 1] < tk.len()
            && tk[pp[i + 1]] == t0[pp[i + 1]] && pp[i] < pp[i + 1],
        i == pp.len() - 1 ==> nx[cur as int] == -1,
{
    reveal(walk_shape);
    reveal(walk_tokens);
    reveal(walk_next);
    lemma_ascending_facts(pp, t0.len() as int, i, i);
    if i < pp.len() - 1 {
        lemma_ascending_facts(pp, t0.len() as int, i, i + 1);
        lemma_ascending_facts(pp, t0.len() as int, i + 1, i + 1);
    }
}

proof fn lemma_shape_step(pp: Seq<int>, len: int, i: int, q: Seq<int>, cur: i32, step: int, cur2: i32)
    requires
        ascending_in(pp, len),
        walk_shape(pp, i, q, cur),
        cur >= 0,
        step == 1 || step == 2,
        i + step <= pp.len(),
        i + step < pp.len() ==> cur2 == pp[i + step],
        i + step == pp.len() ==> cur2 == -1,
    ensures
        walk_shape(pp, i + step, q.push(cur as int), cur2),
{
    reveal(walk_shape);
    lemma_ascending_facts(pp, len, i, i);
    if i + step < pp.len() {
        lemma_ascending_facts(pp, len, i, i + step);
    }
    let q2 = q.push(cur as int);
    assert forall|a: int, b: int| 0 <= a < b < q2.len() implies q2[a] < q2[b] by {
        if b == q2.len() - 1 && a < q.len() {
            assert(q[a] <= q.last());
        }
    }
}

proof fn lemma_tokens_keep(tk: Seq<u32>, t0: Seq<u32>, pp: Seq<int>, i: int, q: Seq<int>, cur: i32, l: u32, r: u32, t: u32)
    requires
        walk_tokens(tk, t0, pp, i, q, l, r, t),
        walk_shape(pp, i, q, cur),
        cur >= 0,
        i == pp.len() - 1 || (i < pp.len() - 1 && !(t0[pp[i]] == l && t0[pp[i + 1]] == r)),
    ensures
        walk_tokens(tk, t0, pp, i + 1, q.push(cur as int), l, r, t),
{
    reveal(walk_tokens);
    reveal(walk_shape);
    let vals = pp.map_values(|p: int| t0[p]);
    let q2 = q.push(cur as int);
    let vs = vals.skip(i);
    let x = vals[i];
    assert(tk[pp[i]] == t0[pp[i]]);
    assert(q2.map_values(|p: int| tk[p]) =~= q.map_values(|p: int| tk[p]).push(x));
    if i == pp.len() - 1 {
        assert(vs =~= seq![x]);
        assert(vals.skip(i + 1) =~= Seq::<u32>::empty());
        assert(merge_seq(vs, l, r, t) == vs);
        assert(merge_seq(vals.skip(i + 1), l, r, t) == Seq::<u32>::empty());
        assert(merge_seq(vs, l, r, t) =~= seq![x] + merge_seq(vals.skip(i + 1), l, r, t));
    } else {
        assert(vs[0] == vals[i] && vs[1] == vals[i + 1]);
        assert(vs.skip(1) =~= vals.skip(i + 1));
        assert(merge_seq(vs, l, r, t) == seq![x] + merge_seq(vals.skip(i + 1), l, r, t));
    }
    let a = q.map_values(|p: int| tk[p]);
    let b = merge_seq(vals.skip(i + 1), l, r, t);
    assert(a + (seq![x] + b) =~= a.push(x) + b);
    assert forall|j: int| i + 1 <= j < pp.len() implies tk[#[trigger] pp[j]] == t0[pp[j]] by {
    }
}

proof fn lemma_tokens_merge(tk: Seq<u32>, t0: Seq<u32>, pp: Seq<int>, len: int, i: int, q: Seq<int>, cur: i32, l: u32, r: u32, t: u32)
    requires
        ascending_in(pp, len),
        tk.len() == len,
        walk_tokens(tk, t0, pp, i, q, l, r, t),
        walk_shape(pp, i, q, cur),
        cur >= 0,
        i < pp.len() - 1,
        t0[pp[i]] == l && t0[pp[i + 1]] == r,
    ensures
        walk_tokens(tk.update(cur as int, t), t0, pp, i + 2, q.push(cur as int), l, r, t),
{
    reveal(walk_tokens);
    reveal(walk_shape);
    let vals = pp.map_values(|p: int| t0[p]);
    let q2 = q.push(cur as int);
    let tk2 = tk.update(cur as int, t);
    let vs = vals.skip(i);
    assert(vs[0] == vals[i] && vs[1] == vals[i + 1]);
    assert(vs.skip(2) =~= vals.skip(i + 2));
    lemma_ascending_facts(pp, len, i, i);
    lemma_ascending_facts(pp, len, 0, pp.len() - 1);
    assert forall|j: int| 0 <= j < q.len() implies tk2[q[j]] == tk[q[j]] by {
        assert(q[j] <= pp.last());
        if j < q.len() - 1 {
            assert(q[j] < q[q.len() - 1]);
        }
        assert(pp[0] <= q[j]);
    }
    assert(q2.map_values(|p: int| tk2[p]) =~= q.map_values(|p: int| tk[p]).push(t));
    let a = q.map_values(|p: int| tk[p]);
    let b = merge_seq(vals.skip(i + 2), l, r, t);
    assert(merge_seq(vs, l, r, t) == seq![t] + b);
    assert(a + (seq![t] + b) =~= a.push(t) + b);
    assert forall|j: int| i + 2 <= j < pp.len() implies tk2[#[trigger] pp[j]] == t0[pp[j]] by {
        lemma_ascending_facts(pp, len, i, j);
    }
}

proof fn lemma_next_keep(nx: Seq<i32>, pp: Seq<int>, len: int, i: int, q: Seq<int>, cur: i32)
    requires
        ascending_in(pp, len),
        nx.len() == len,
        walk_next(nx, pp, i, q),
        walk_shape(pp, i, q, cur),
        cur >= 0,
    ensures
        walk_next(nx, pp, i + 1, q.push(cur as int)),
{
    reveal(walk_next);
    reveal(walk_shape);
}

proof fn lemma_next_merge(nx: Seq<i32>, pp: Seq<int>, len: int, i: int, q: Seq<int>, cur: i32)
    requires
        ascending_in(pp, len),
        nx.len() == len,
        walk_next(nx, pp, i, q),
        walk_shape(pp, i, q, cur),
        cur >= 0,
        i < pp.len() - 1,
    ensures
        i + 2 < pp.len() ==> nx[pp[i + 1]] == pp[i + 2],
        i + 2 == pp.len() ==> nx[pp[i + 1]] == -1,
        walk_next(nx.update(cur as int, nx[pp[i + 1]]), pp, i + 2, q.push(cur as int)),
{
    reveal(walk_next);
    reveal(walk_shape);
    let nx2 = nx.update(cur as int, nx[pp[i + 1]]);
    let q2 = q.push(cur as int);
    lemma_ascending_facts(pp, len, i, i);
    assert forall|j: int| i + 2 <= j < pp.len() - 1 implies nx2[#[trigger] pp[j]] == pp[j + 1] by {
        lemma_ascending_facts(pp, len, i, j);
    }
    if i + 2 < pp.len() {
        lemma_ascending_facts(pp, len, i, pp.len() - 1);
    }
    lemma_ascending_facts(pp, len, 0, pp.len() - 1);
    assert forall|j: int| 0 <= j < q2.len() - 1 implies nx2[#[trigger] q2[j]] == q2[j + 1] by {
        assert(q2[j] == q[j]);
        assert(pp[0] <= q[j] <= pp.last());
        if j < q.len() - 1 {
            assert(q[j] < q[q.len() - 1]);
            assert(nx[q[j]] == q[j + 1]);
        } else {
            assert(nx[q[j]] == pp[i]);
        }
    }
}

proof fn lemma_prev_keep(pv: Seq<i32>, pp: Seq<int>, len: int, i: int, q: Seq<int>, cur: i32)
    requires
        ascending_in(pp, len),
        walk_prev(pv, pp, i, q),
        walk_shape(pp, i, q, cur),
        cur >= 0,
    ensures
        walk_prev(pv, pp, i + 1, q.push(cur as int)),
{
    reveal(walk_prev);
    reveal(walk_shape);
    let q2 = q.push(cur as int);
    if i + 1 < pp.len() {
        assert(pv[pp[i + 1]] == pp[i]);
    }
    assert(pv[cur as int] == (if q.len() > 0 { q.last() as i32 } else { -1i32 }));
    lemma_ascending_facts(pp, len, 0, i);
    if q.len() > 0 {
        assert(pp[0] <= q.last() < cur);
    }
    assert forall|j: int| 0 < j < q2.len() implies pv[#[trigger] q2[j]] == q2[j - 1] by {
        if j == q.len() {
            assert(q2[j] == cur);
            assert(q2[j - 1] == q.last());
        } else {
            assert(q2[j] == q[j]);
            assert(q2[j - 1] == q[j - 1]);
            assert(pv[q[j]] == q[j - 1]);
        }
    }
}

proof fn lemma_prev_merge(pv: Seq<i32>, pp: Seq<int>, len: int, i: int, q: Seq<int>, cur: i32, nn: i32)
    requires
        ascending_in(pp, len),
        pv.len() == len,
        walk_prev(pv, pp, i, q),
        walk_shape(pp, i, q, cur),
        cur >= 0,
        i < pp.len() - 1,
        i + 2 < pp.len() ==> nn == pp[i + 2],
        i + 2 == pp.len() ==> nn == -1,
    ensures
        walk_prev(if nn >= 0 { pv.update(nn as int, cur) } else { pv }, pp, i + 2, q.push(cur as int)),
{
    reveal(walk_prev);
    reveal(walk_shape);
    let pv2 = if nn >= 0 { pv.update(nn as int, cur) } else { pv };
    let q2 = q.push(cur as int);
    lemma_ascending_facts(pp, len, i, i);
    if i + 2 < pp.len() {
        lemma_ascending_facts(pp, len, i, i + 2);
        lemma_ascending_facts(pp, len, i + 2, i + 2);
    }
    lemma_ascending_facts(pp, len, 0, pp.len() - 1);
    assert(pv[cur as int] == (if q.len() > 0 { q.last() as i32 } else { -1i32 }));
    assert forall|j: int| 0 < j < q2.len() implies pv2[#[trigger] q2[j]] == q2[j - 1] by {
        if j < q.len() {
            assert(q2[j] == q[j]);
            assert(q2[j - 1] == q[j - 1]);
            assert(pv[q[j]] == q[j - 1]);
            assert(q[j] < q[q.len() - 1] || j == q.len() - 1);
            assert(pp[0] <= q[j] <= pp.last());
            if nn >= 0 {
                assert(q[j] < pp[i + 2]);
            }
        } else {
            assert(q2[j] == cur);
            if nn >= 0 {
                assert(cur < pp[i + 2]);
            }
        }
    }
    if q.len() > 0 {
        assert(q[0] <= q.last());
        assert(pp[0] <= q[0]);
        if nn >= 0 {
            assert(q[0] < pp[i + 2]);
        }
    } else {
        assert(q2[0] == cur);
        if nn >= 0 {
            assert(cur < pp[i + 2]);
        }
    }
    assert forall|j: int| i + 2 < j < pp.len() implies pv2[#[trigger] pp[j]] == pp[j - 1] by {
        lemma_ascending_facts(pp, len, i + 2, j);
    }
}

proof fn lemma_frame_update(
    tk: Seq<u32>, nx: Seq<i32>, pv: Seq<i32>, t0: Seq<u32>, n0: Seq<i32>, p0: Seq<i32>,
    pp: Seq<int>, tk2: Seq<u32>, nx2: Seq<i32>, pv2: Seq<i32>,
)
    requires
        walk_frame(tk, nx, pv, t0, n0, p0, pp),
        forall|p: int| 0 <= p < t0.len() && (p < pp[0] || p > pp.last()) ==> tk2[p] == tk[p] && nx2[p] == nx[p] && pv2[p] == pv[p],
    ensures
        walk_frame(tk2, nx2, pv2, t0, n0, p0, pp),
{
    reveal(walk_frame);
}

/// The current position is the last one, or the current pair is not
/// `(l, r)`: the position is kept as is.
pub proof fn lemma_walk_keep(
    tk: Seq<u32>, nx: Seq<i32>, pv: Seq<i32>, t0: Seq<u32>, n0: Seq<i32>, p0: Seq<i32>,
    pp: Seq<int>, i: int, q: Seq<int>, cur: i32, l: u32, r: u32, t: u32,
)
    requires
        walk_inv(tk, nx, pv, t0, n0, p0, pp, i, q, cur, l, r, t),
        cur >= 0,
        i == pp.len() - 1 || (i < pp.len() - 1 && !(tk[cur as int] == l && tk[pp[i + 1]] == r)),
    ensures
        walk_inv(
            tk, nx, pv, t0, n0, p0, pp, i + 1, q.push(cur as int),
            if i + 1 < pp.len() { pp[i + 1] as i32 } else { -1i32 }, l, r, t,
        ),
{
    lemma_walk_facts(tk, nx, pv, t0, n0, p0, pp, i, q, cur, l, r, t);
    let len = t0.len() as int;
    lemma_shape_step(pp, len, i, q, cur, 1, if i + 1 < pp.len() { pp[i + 1] as i32 } else { -1i32 });
    lemma_tokens_keep(tk, t0, pp, i, q, cur, l, r, t);
    lemma_next_keep(nx, pp, len, i, q, cur);
    lemma_prev_keep(pv, pp, len, i, q, cur);
}

/// The current pair is `(l, r)`: the left position takes `t` and the right
/// one is unlinked.
pub proof fn lemma_walk_merge(
    tk: Seq<u32>, nx: Seq<i32>, pv: Seq<i32>, t0: Seq<u32>, n0: Seq<i32>, p0: Seq<i32>,
    pp: Seq<int>, i: int, q: Seq<int>, cur: i32, l: u32, r: u32, t: u32,
)
    requires
        walk_inv(tk, nx, pv, t0, n0, p0, pp, i, q, cur, l, r, t),
        cur >= 0,
        i < pp.len() - 1,
        tk[cur as int] == l && tk[pp[i + 1]] == r,
    ensures
        ({
            let nn = nx[pp[i + 1]];
            let tk2 = tk.update(cur as int, t);
            let nx2 = nx.update(cur as int, nn);
            let pv2 = if nn >= 0 { pv.update(nn as int, cur) } else { pv };
            &&& i + 2 < pp.len() ==> nn == pp[i + 2] && 0 <= nn < tk.len()
            &&& i + 2 >= pp.len() ==> nn == -1
            &&& walk_inv(tk2, nx2, pv2, t0, n0, p0, pp, i + 2, q.push(cur as int), nn, l, r, t)
        }),
{
    lemma_walk_facts(tk, nx, pv, t0, n0, p0, pp, i, q, cur, l, r, t);
    let len = t0.len() as int;
    let nn = nx[pp[i + 1]];
    lemma_next_merge(nx, pp, len, i, q, cur);
    if i + 2 < pp.len() {
        lemma_ascending_facts(pp, len, i + 2, i + 2);
    }
    lemma_shape_step(pp, len, i, q, cur, 2, nn);
    lemma_tokens_merge(tk, t0, pp, len, i, q, cur, l, r, t);
    lemma_prev_merge(pv, pp, len, i, q, cur, nn);
    let tk2 = tk.update(cur as int, t);
    let nx2 = nx.update(cur as int, nn);
    let pv2 = if nn >= 0 { pv.update(nn as int, cur) } else { pv };
    lemma_ascending_facts(pp, len, i, i);
    if i + 2 < pp.len() {
        lemma_ascending_facts(pp, len, i + 2, i + 2);
    }
    lemma_frame_update(tk, nx, pv, t0, n0, p0, pp, tk2, nx2, pv2);
}

/// The walk is over: what it leaves behind.
pub proof fn lemma_walk_done(
    tk: Seq<u32>, nx: Seq<i32>, pv: Seq<i32>, t0: Seq<u32>, n0: Seq<i32>, p0: Seq<i32>,
    pp: Seq<int>, i: int, q: Seq<int>, cur: i32, l: u32, r: u32, t: u32,
)
    requires
        walk_inv(tk, nx, pv, t0, n0, p0, pp, i, q, cur, l, r, t),
        cur < 0,
    ensures
        i == pp.len(),
        linked(nx, pv, q),
        q[0] == pp[0],
        q.last() <= pp.last(),
        q.len() <= pp.len(),
        q.map_values(|p: int| tk[p]) == merge_seq(pp.map_values(|p: int| t0[p]), l, r, t),
        forall|p: int|
            0 <= p < t0.len() && (p < pp[0] || p > pp.last()) ==> tk[p] == t0[p] && nx[p] == n0[p]
                && pv[p] == p0[p],
{
    reveal(walk_shape);
    reveal(walk_tokens);
    reveal(walk_next);
    reveal(walk_prev);
    reveal(walk_frame);
    reveal(ascending_in);
    let len = t0.len() as int;
    let vals = pp.map_values(|p: int| t0[p]);
    assert(vals.skip(pp.len() as int) =~= Seq::<u32>::empty());
    assert(merge_seq(Seq::<u32>::empty(), l, r, t) == Seq::<u32>::empty());
    assert(q.map_values(|p: int| tk[p]) + Seq::<u32>::empty() =~= q.map_values(|p: int| tk[p]));
    lemma_ascending_facts(pp, len, 0, 0);
    lemma_ascending_facts(pp, len, pp.len() - 1, pp.len() - 1);
    assert forall|j: int| 0 <= j < q.len() implies 0 <= #[trigger] q[j] < nx.len() by {
    }
}

/// A segment is never longer than all segments together.
pub proof fn lemma_total_len_ge<A>(segs: Seq<Seq<A>>, k: int)
    requires
        0 <= k < segs.len(),
    ensures
        total_len(segs) >= segs[k].len(),
{
    lemma_total_len_update(segs, k, Seq::empty());
}

// ---------------------------------------------------------------------------
// The chunk
// ---------------------------------------------------------------------------

/// The link `new` gives position `p` forward: the next position when both
/// hold tokens (not sentinels), else -1.
pub open spec fn next_link(t: Seq<u32>, lim: int, p: int) -> i32 {
    if p + 1 < lim && t[p] != SENTINEL && t[p + 1] != SENTINEL { (p + 1) as i32 } else { -1i32 }
}

/// The link `new` gives position `p` backward: the previous position when
/// both hold tokens, else -1.
pub open spec fn prev_link(t: Seq<u32>, p: int) -> i32 {
    if p > 0 && t[p] != SENTINEL && t[p - 1] != SENTINEL { (p - 1) as i32 } else { -1i32 }
}

/// The positions where a run of non-sentinel tokens starts, in order.
pub open spec fn run_starts(t: Seq<u32>) -> Seq<i32>
    decreases t.len(),
{
    if t.len() == 0 {
        Seq::empty()
    } else if t.last() != SENTINEL && (t.len() == 1 || t[t.len() - 2] == SENTINEL) {
        run_starts(t.drop_last()).push((t.len() - 1) as i32)
    } else {
        run_starts(t.drop_last())
    }
}

/// The number of tokens that are not sentinels.
pub open spec fn live_count(t: Seq<u32>) -> nat
    decreases t.len(),
{
    if t.len() == 0 {
        0
    } else {
        live_count(t.drop_last()) + (if t.last() != SENTINEL { 1nat } else { 0nat })
    }
}

/// `c` is the chunk `TokenChunk::new` builds from `t`: the tokens as given,
/// each position linked to its neighbours within its run of non-sentinel
/// tokens, one segment per run.
pub open spec fn built_from(c: TokenChunk, t: Seq<u32>) -> bool {
    &&& c.wf()
    &&& c.tokens@ == t
    &&& c@ == split_segments(t)
    &&& c.next@.len() == t.len()
    &&& c.prev@.len() == t.len()
    &&& forall|p: int| 0 <= p < t.len() ==> #[trigger] c.next@[p] == next_link(t, t.len() as int, p)
    &&& forall|p: int| 0 <= p < t.len() ==> #[trigger] c.prev@[p] == prev_link(t, p)
    &&& c.segment_heads@ == run_starts(t)
    &&& c.active_count == live_count(t)
}

/// A chunk of tokenized data. Token positions are linked into segments (one
/// per document run between sentinels) through `next` / `prev`; a merge
/// unlinks the right-hand position of each merged pair.
pub struct TokenChunk {
    /// Token IDs, with `SENTINEL` between documents.
    pub tokens: Vec<u32>,
    /// Next live position in the segment, -1 at its end.
    pub next: Vec<i32>,
    /// Previous live position in the segment, -1 at its start.
    pub prev: Vec<i32>,
    /// Number of live (non-sentinel, not merged away) positions.
    pub active_count: usize,
    /// First position of each segment.
    pub segment_heads: Vec<i32>,
    /// The live positions of each segment, in order.
    pub layout: Ghost<Seq<Seq<int>>>,
}

impl View for TokenChunk {
    type V = Seq<Seq<u32>>;

    /// The live tokens of each segment.
    open spec fn view(&self) -> Seq<Seq<u32>> {
        layout_tokens(self.tokens@, self.layout@)
    }
}

impl TokenChunk {
    /// Internal consistency of the linked structure.
    pub open spec fn wf(&self) -> bool {
        let lay = self.layout@;
        &&& self.next@.len() == self.tokens@.len()
        &&& self.prev@.len() == self.tokens@.len()
        &&& self.tokens@.len() <= 0x8000_0000
        &&& layout_ok(self.next@, self.prev@, lay)
        &&& self.segment_heads@.len() == lay.len()
        &&& self.segment_heads@.len() <= self.tokens@.len()
        &&& forall|k: int| 0 <= k < lay.len() ==> self.segment_heads@[k] == (#[trigger] lay[k])[0]
        &&& self.active_count == total_len(lay)
        &&& self.active_count <= self.tokens@.len()
    }

    /// Builds the chunk: every maximal run of non-sentinel tokens becomes
    /// one segment, so that no pair spans a sentinel.
    pub fn new(tokens: Vec<u32>) -> (chunk: Self)
        requires
            tokens@.len() <= 0x8000_0000,
        ensures
            chunk.wf(),
            chunk.tokens@ == tokens@,
            chunk@ == split_segments(tokens@),
            forall|p: int| 0 <= p < tokens@.len() ==> #[trigger] chunk.next@[p] == next_link(tokens@, tokens@.len() as int, p),
            forall|p: int| 0 <= p < tokens@.len() ==> #[trigger] chunk.prev@[p] == prev_link(tokens@, p),
            chunk.segment_heads@ == run_starts(tokens@),
            chunk.active_count == live_count(tokens@),
            built_from(chunk, tokens@),
    {
        let len = tokens.len();
        if len == 0 {
            let chunk = TokenChunk {
                tokens: Vec::new(),
                next: Vec::new(),
                prev: Vec::new(),
                active_count: 0,
                segment_heads: Vec::new(),
                layout: Ghost(Seq::empty()),
            };
            assert(chunk.tokens@ =~= tokens@);
            assert(chunk@ =~= split_segments(tokens@));
            assert(chunk.segment_heads@ =~= run_starts(tokens@));
            return chunk;
        }
        let mut next: Vec<i32> = vec![-1i32; len];
        let mut prev: Vec<i32> = vec![-1i32; len];
        let mut segment_heads: Vec<i32> = Vec::new();
        let mut active_count: usize = 0;
        let mut last_non_sentinel: i32 = -1;
        let mut segment_started: bool = false;
        let ghost mut lay: Seq<Seq<int>> = Seq::empty();

        assert(tokens@.take(0) =~= Seq::<u32>::empty());
        let mut i: usize = 0;
        while i < len
            invariant
                len == tokens@.len(),
                len <= 0x8000_0000,
                0 <= i <= len,
                next@.len() == len,
                prev@.len() == len,
                layout_ok(next@, prev@, lay),
                forall|p: int| i <= p < len ==> next@[p] == -1 && prev@[p] == -1,
                lay.len() > 0 ==> lay.last().last() < i,
                layout_tokens(tokens@, lay) == split_segments(tokens@.take(i as int)),
                segment_heads@.len() == lay.len(),
                segment_heads@.len() <= i,
                forall|k: int| 0 <= k < lay.len() ==> segment_heads@[k] == (#[trigger] lay[k])[0],
                active_count == total_len(lay),
                active_count <= i,
                last_non_sentinel == (if i > 0 && tokens@[i - 1] != SENTINEL { i - 1 } else { -1 }),
                segment_started == (last_non_sentinel >= 0),
                last_non_sentinel >= 0 ==> lay.len() > 0 && lay.last().last() == last_non_sentinel,
                forall|p: int| 0 <= p < i ==> #[trigger] next@[p] == next_link(tokens@, i as int, p),
                forall|p: int| 0 <= p < i ==> #[trigger] prev@[p] == prev_link(tokens@, p),
                segment_heads@ == run_starts(tokens@.take(i as int)),
                active_count == live_count(tokens@.take(i as int)),
            decreases len - i,
        {
            let ghost old_lay = lay;
            let ghost old_next = next@;
            let ghost old_prev = prev@;
            let x = tokens[i];
            assert(tokens@.take(i + 1).drop_last() =~= tokens@.take(i as int));
            assert(tokens@.take(i + 1).last() == x);
            assert(i > 0 ==> tokens@.take(i + 1)[i - 1] == tokens@[i - 1]);
            let ghost old_heads = segment_heads@;
            if x == SENTINEL {
                last_non_sentinel = -1;
                segment_started = false;
            } else {
                active_count = active_count + 1;
                if !segment_started {
                    segment_heads.push(i as i32);
                    segment_started = true;
                    proof {
                        lay = old_lay.push(seq![i as int]);
                        lemma_total_len_push(old_lay, seq![i as int]);
                        lemma_layout_push(next@, prev@, old_lay, i as int);
                        lemma_layout_tokens_push(tokens@, old_lay, seq![i as int]);
                        assert(seq![i as int].map_values(|p: int| tokens@[p]) =~= seq![x]);
                    }
                } else {
                    let lns = last_non_sentinel as usize;
                    next.set(lns, i as i32);
                    prev.set(i, last_non_sentinel);
                    proof {
                        let last = old_lay.last();
                        let k_last = old_lay.len() - 1;
                        let nl = last.push(i as int);
                        lay = old_lay.update(k_last, nl);
                        lemma_total_len_update(old_lay, k_last, nl);
                        lemma_layout_extend_last(old_next, old_prev, old_lay, i as int);
                        assert(next@ == old_next.update(last.last(), i as i32));
                        assert(prev@ == old_prev.update(i as int, last.last() as i32));
                        lemma_layout_tokens_update(tokens@, old_lay, k_last, nl);
                        assert(nl.map_values(|p: int| tokens@[p]) =~= last.map_values(|p: int| tokens@[p]).push(x));
                        assert forall|k: int| 0 <= k < lay.len() implies segment_heads@[k] == (#[trigger] lay[k])[0] by {
                            if k == k_last {
                                assert(lay[k][0] == old_lay[k][0]);
                            } else {
                                assert(lay[k] == old_lay[k]);
                            }
                        }
                    }
                }
                last_non_sentinel = i as i32;
            }
            proof {
                assert forall|p: int| 0 <= p < i + 1 implies #[trigger] next@[p] == next_link(tokens@, i + 1, p) by {
                    if p < i - 1 {
                        assert(next@[p] == old_next[p]);
                    }
                }
            }
            i = i + 1;
        }
        assert(tokens@.take(len as int) =~= tokens@);
        TokenChunk { tokens, next, prev, active_count, segment_heads, layout: Ghost(lay) }
    }

    /// Applies the merge `(left, right) -> new_token` to segment `k`,
    /// left to right, never re-examining a merged position.
    fn merge_segment(&mut self, k: usize, left: u32, right: u32, new_token: u32)
        requires
            old(self).wf(),
            k < old(self).layout@.len(),
        ensures
            final(self).wf(),
            final(self)@ == old(self)@.update(
                k as int,
                merge_seq(old(self)@[k as int], left, right, new_token),
            ),
            final(self).tokens@.len() == old(self).tokens@.len(),
            final(self).segment_heads@ == old(self).segment_heads@,
    {
        let ghost lay = self.layout@;
        let ghost pp = lay[k as int];
        let ghost m = pp.len() as int;
        let ghost t0 = self.tokens@;
        let ghost n0 = self.next@;
        let ghost p0 = self.prev@;
        let ghost h0 = self.segment_heads@;
        let ghost a0 = self.active_count as int;
        proof {
            assert(linked(n0, p0, pp));
            lemma_walk_start(t0, n0, p0, pp, left, right, new_token);
            lemma_total_len_ge(lay, k as int);
        }
        let mut current: i32 = self.segment_heads[k];
        let ghost mut i: int = 0;
        let ghost mut q: Seq<int> = Seq::empty();
        while current >= 0
            invariant
                self.layout@ == lay,
                self.segment_heads@ == h0,
                pp == lay[k as int],
                m == pp.len(),
                a0 >= m,
                walk_inv(self.tokens@, self.next@, self.prev@, t0, n0, p0, pp, i, q, current, left, right, new_token),
                self.active_count + (i - q.len()) == a0,
            decreases m - i,
        {
            proof {
                lemma_walk_facts(self.tokens@, self.next@, self.prev@, t0, n0, p0, pp, i, q, current, left, right, new_token);
            }
            let cur = current as usize;
            let nxt = self.next[cur];
            if nxt < 0 {
                proof {
                    lemma_walk_keep(self.tokens@, self.next@, self.prev@, t0, n0, p0, pp, i, q, current, left, right, new_token);
                    q = q.push(cur as int);
                    i = m;
                }
                current = -1;
            } else {
                let nidx = nxt as usize;
                if self.tokens[cur] == left && self.tokens[nidx] == right {
                    let ghost tk = self.tokens@;
                    let ghost nx = self.next@;
                    let ghost pv = self.prev@;
                    proof {
                        lemma_walk_merge(tk, nx, pv, t0, n0, p0, pp, i, q, current, left, right, new_token);
                    }
                    self.tokens.set(cur, new_token);
                    let nn = self.next[nidx];
                    self.next.set(cur, nn);
                    if nn >= 0 {
                        self.prev.set(nn as usize, current);
                    }
                    self.active_count = self.active_count - 1;
                    current = self.next[cur];
                    proof {
                        q = q.push(cur as int);
                        i = i + 2;
                    }
                } else {
                    proof {
                        lemma_walk_keep(self.tokens@, self.next@, self.prev@, t0, n0, p0, pp, i, q, current, left, right, new_token);
                        q = q.push(cur as int);
                        i = i + 1;
                    }
                    current = nxt;
                }
            }
        }
        proof {
            lemma_walk_done(self.tokens@, self.next@, self.prev@, t0, n0, p0, pp, i, q, current, left, right, new_token);
            lemma_merge_segment_done(self.next@, self.prev@, n0, p0, lay, k as int, q);
        }
        let ghost new_lay = lay.update(k as int, q);
        self.layout = Ghost(new_lay);
        proof {
            lemma_total_len_update(lay, k as int, q);
            assert forall|kk: int| 0 <= kk < new_lay.len() implies self.segment_heads@[kk] == (#[trigger] new_lay[kk])[0] by {
                if kk != k {
                    assert(new_lay[kk] == lay[kk]);
                }
            }
            lemma_merge_segment_view(
                n0,
                p0,
                t0,
                self.tokens@,
                lay,
                k as int,
                q,
                merge_seq(pp.map_values(|p: int| t0[p]), left, right, new_token),
            );
        }
    }

    /// Estimated memory footprint in bytes: 12 per position, 4 per segment
    /// head, plus fixed overhead.
    pub open spec fn memory_size_spec(&self) -> int {
        (self.tokens@.len() * 12 + self.segment_heads@.len() * 4 + 96
            + vstd::layout::size_of::<TokenChunk>()) as int
    }

    /// Estimate memory usage in bytes.
    pub fn memory_size(&self) -> (size: usize)
        requires
            self.memory_size_spec() <= usize::MAX,
        ensures
            size == self.memory_size_spec(),
    {
        self.tokens.len() * 12 + self.segment_heads.len() * 4 + 96 + core::mem::size_of::<TokenChunk>()
    }

    /// Applies the merge `(left, right) -> new_token` to every segment.
    pub fn apply_merge(&mut self, left: u32, right: u32, new_token: u32)
        requires
            old(self).wf(),
        ensures
            final(self).wf(),
            final(self)@ == old(self)@.map_values(|s: Seq<u32>| merge_seq(s, left, right, new_token)),
            final(self).tokens@.len() == old(self).tokens@.len(),
            final(self).segment_heads@ == old(self).segment_heads@,
    {
        let ghost v0 = self@;
        let n = self.segment_heads.len();
        let mut k: usize = 0;
        while k < n
            invariant
                self.wf(),
                n == self.segment_heads@.len(),
                self.segment_heads@ == old(self).segment_heads@,
                self.tokens@.len() == old(self).tokens@.len(),
                v0 == old(self)@,
                0 <= k <= n,
                self@.len() == v0.len(),
                forall|j: int| 0 <= j < k ==> self@[j] == merge_seq(v0[j], left, right, new_token),
                forall|j: int| k <= j < v0.len() ==> self@[j] == v0[j],
            decreases n - k,
        {
            self.merge_segment(k, left, right, new_token);
            k = k + 1;
        }
        assert(self@ =~= v0.map_values(|s: Seq<u32>| merge_seq(s, left, right, new_token)));
    }

    /// Adds the adjacent pairs of every segment to `counts`.
    #[verifier::rlimit(40)]
    #[verifier::spinoff_prover]
    pub fn count_pairs_into(&self, counts: &mut AHashMap<(u32, u32), u64>, Ghost(before): Ghost<Seq<Seq<u32>>>)
        requires
            self.wf(),
            counts_match(count_table(*old(counts)), before),
            total_len(before) + total_len(self@) < 0xFFFF_FFFF_FFFF_FFFF,
        ensures
            counts_match(count_table(*final(counts)), before + self@),
    {
        let n = self.segment_heads.len();
        let ghost lay = self.layout@;
        let ghost view = self@;
        let mut k: usize = 0;
        proof {
            assert(before + view.take(0) =~= before);
        }
        while k < n
            invariant
                self.wf(),
                lay == self.layout@,
                view == self@,
                n == lay.len(),
                0 <= k <= n,
                counts_match(count_table(*counts), before + view.take(k as int)),
                total_len(before) + total_len(view) < 0xFFFF_FFFF_FFFF_FFFF,
            decreases n - k,
        {
            let ghost base = before + view.take(k as int);
            let ghost pp = lay[k as int];
            let ghost s = view[k as int];
            proof {
                assert(linked(self.next@, self.prev@, pp));
                assert(s == pp.map_values(|p: int| self.tokens@[p]));
                lemma_counts_start(count_table(*counts), base, s);
                lemma_total_len_ge(view, k as int);
                lemma_total_len_append(before, view.take(k as int));
                assert(view.take(k as int + 1) =~= view.take(k as int).push(s));
                lemma_total_len_push(view.take(k as int), s);
                assert(view =~= view.take(k as int + 1) + view.skip(k as int + 1));
                lemma_total_len_append(view.take(k as int + 1), view.skip(k as int + 1));
            }
            let mut cur: i32 = self.segment_heads[k];
            let ghost mut j: int = 0;
            loop
                invariant
                    self.wf(),
                    lay == self.layout@,
                    view == self@,
                    n == lay.len(),
                    0 <= k < n,
                    pp == lay[k as int],
                    s == view[k as int],
                    s == pp.map_values(|p: int| self.tokens@[p]),
                    linked(self.next@, self.prev@, pp),
                    base == before + view.take(k as int),
                    0 <= j < pp.len(),
                    cur == pp[j],
                    counts_match(count_table(*counts), base.push(s.take(j + 1))),
                    total_len(base) + s.len() < 0xFFFF_FFFF_FFFF_FFFF,
                ensures
                    counts_match(count_table(*counts), base.push(s)),
                decreases pp.len() - j,
            {
                let ci = cur as usize;
                let nx = self.next[ci];
                if nx < 0 {
                    proof {
                        if j < pp.len() - 1 {
                            assert(self.next@[pp[j]] == pp[j + 1]);
                            assert(0 <= pp[j + 1]);
                        }
                        lemma_counts_finish(count_table(*counts), base, s);
                    }
                    break;
                }
                proof {
                    assert(j < pp.len() - 1);
                    assert(self.next@[pp[j]] == pp[j + 1]);
                    assert(0 <= pp[j + 1] < self.tokens@.len());
                }
                let key = (self.tokens[ci], self.tokens[nx as usize]);
                let c = match count_table_get(counts, key) {
                    Some(c) => c,
                    None => 0,
                };
                proof {
                    lemma_occurrences_in_le(base.push(s.take(j + 1)), key.0, key.1);
                    lemma_total_len_push(base, s.take(j + 1));
                    assert(c == occurrences_in(base.push(s.take(j + 1)), key.0, key.1));
                    lemma_counts_step(count_table(*counts), base, s, j);
                }
                count_table_insert(counts, key, c + 1);
                cur = nx;
                proof {
                    j = j + 1;
                }
            }
            proof {
                assert(before + view.take(k as int + 1) =~= base.push(s));
            }
            k = k + 1;
        }
        proof {
            assert(view.take(n as int) =~= view);
        }
    }

    /// Counts the adjacent pairs of every segment.
    pub fn count_pairs(&self) -> (counts: AHashMap<(u32, u32), u64>)
        requires
            self.wf(),
            total_len(self@) < 0xFFFF_FFFF_FFFF_FFFF,
        ensures
            counts_match(count_table(counts), self@),
    {
        let mut counts = count_table_new();
        proof {
            assert(count_table(counts) =~= Map::<(u32, u32), u64>::empty());
            assert(counts_match(count_table(counts), Seq::empty()));
            assert(Seq::<Seq<u32>>::empty() + self@ =~= self@);
        }
        self.count_pairs_into(&mut counts, Ghost(Seq::empty()));
        counts
    }
}

/// Adds the counts of `from` into `into`.
pub fn add_counts(
    into: &mut AHashMap<(u32, u32), u64>,
    from: &AHashMap<(u32, u32), u64>,
    Ghost(a): Ghost<Seq<Seq<u32>>>,
    Ghost(b): Ghost<Seq<Seq<u32>>>,
)
    requires
        counts_match(count_table(*old(into)), a),
        counts_match(count_table(*from), b),
        total_len(a) + total_len(b) < 0xFFFF_FFFF_FFFF_FFFF,
    ensures
        counts_match(count_table(*final(into)), a + b),
{
    let entries = count_table_entries(from);
    let ghost mut keys: Set<(u32, u32)> = Set::empty();
    let mut i: usize = 0;
    while i < entries.len()
        invariant
            0 <= i <= entries@.len(),
            counts_match(count_table(*from), b),
            total_len(a) + total_len(b) < 0xFFFF_FFFF_FFFF_FFFF,
            forall|x: int, y: int| 0 <= x < y < entries@.len() ==> entries@[x].0 != entries@[y].0,
            forall|x: int|
                0 <= x < entries@.len() ==> count_table(*from).contains_key(#[trigger] entries@[x].0)
                    && count_table(*from)[entries@[x].0] == entries@[x].1,
            forall|key: (u32, u32)| keys.contains(key) <==> exists|x: int| 0 <= x < i && (#[trigger] entries@[x]).0 == key,
            forall|p: (u32, u32)| {
                let sum = occurrences_in(a, p.0, p.1) + (if keys.contains(p) { occurrences_in(b, p.0, p.1) } else { 0nat });
                &&& (#[trigger] count_table(*into).contains_key(p) <==> sum > 0)
                &&& count_table(*into).contains_key(p) ==> count_table(*into)[p] == sum
            },
        decreases entries@.len() - i,
    {
        let (key, c) = entries[i];
        let prev = match count_table_get(into, key) {
            Some(v) => v,
            None => 0,
        };
        proof {
            assert(!keys.contains(key)) by {
                if keys.contains(key) {
                    let x = choose|x: int| 0 <= x < i && (#[trigger] entries@[x]).0 == key;
                    assert(entries@[x].0 != entries@[i as int].0);
                }
            }
            assert(c == occurrences_in(b, key.0, key.1));
            lemma_occurrences_in_le(a, key.0, key.1);
            lemma_occurrences_in_le(b, key.0, key.1);
            assert(prev == occurrences_in(a, key.0, key.1));
        }
        count_table_insert(into, key, prev + c);
        proof {
            let old_keys = keys;
            keys = keys.insert(key);
            assert forall|k2: (u32, u32)| keys.contains(k2) <==> exists|x: int| 0 <= x < i + 1 && (#[trigger] entries@[x]).0 == k2 by {
                if keys.contains(k2) && k2 != key {
                    assert(old_keys.contains(k2));
                }
                if exists|x: int| 0 <= x < i + 1 && (#[trigger] entries@[x]).0 == k2 {
                    let x = choose|x: int| 0 <= x < i + 1 && (#[trigger] entries@[x]).0 == k2;
                    if x < i {
                        assert(old_keys.contains(k2));
                    }
                }
            }
        }
        i = i + 1;
    }
    proof {
        assert forall|p: (u32, u32)| occurrences_in(a + b, p.0, p.1) == occurrences_in(a, p.0, p.1) + (if keys.contains(p) { occurrences_in(b, p.0, p.1) } else { 0nat }) by {
            lemma_occurrences_in_append(a, b, p.0, p.1);
            if !keys.contains(p) && occurrences_in(b, p.0, p.1) > 0 {
                assert(count_table(*from).contains_key(p));
                let x = choose|x: int| 0 <= x < entries@.len() && (#[trigger] entries@[x]).0 == p;
                assert(keys.contains(p));
            }
        }
    }
}


// ---------------------------------------------------------------------------
// Iterating over pairs
// ---------------------------------------------------------------------------

/// The adjacent pairs of one segment of positions, each as (left token,
/// right token, left position).
pub open spec fn segment_pairs(tokens: Seq<u32>, ps: Seq<int>) -> Seq<(u32, u32, i32)> {
    Seq::new(
        if ps.len() > 0 { (ps.len() - 1) as nat } else { 0nat },
        |j: int| (tokens[ps[j]], tokens[ps[j + 1]], ps[j] as i32),
    )
}

/// The pairs of segments `k` and on, segment after segment.
pub open spec fn pairs_after(tokens: Seq<u32>, lay: Seq<Seq<int>>, k: int) -> Seq<(u32, u32, i32)>
    decreases lay.len() - k,
{
    if k < 0 || k >= lay.len() {
        Seq::empty()
    } else {
        segment_pairs(tokens, lay[k]) + pairs_after(tokens, lay, k + 1)
    }
}

/// All adjacent pairs of the chunk, segment after segment.
pub open spec fn chunk_pairs(c: TokenChunk) -> Seq<(u32, u32, i32)> {
    pairs_after(c.tokens@, c.layout@, 0)
}

/// The adjacent token pairs of segments `k` and on, segment after segment.
pub open spec fn adjacent_pairs_from(segs: Seq<Seq<u32>>, k: int) -> Seq<(u32, u32)>
    decreases segs.len() - k,
{
    if k < 0 || k >= segs.len() {
        Seq::empty()
    } else {
        let s = segs[k];
        Seq::new(if s.len() > 0 { (s.len() - 1) as nat } else { 0nat }, |j: int| (s[j], s[j + 1]))
            + adjacent_pairs_from(segs, k + 1)
    }
}

/// The pair `p` is read off the links of `c`: its left token is at its
/// position, and its right token at the position that one links to.
pub open spec fn pair_on_link(c: TokenChunk, p: (u32, u32, i32)) -> bool {
    &&& 0 <= p.2 < c.tokens@.len()
    &&& 0 <= c.next@[p.2 as int] < c.tokens@.len()
    &&& p.0 == c.tokens@[p.2 as int]
    &&& p.1 == c.tokens@[c.next@[p.2 as int] as int]
}

proof fn lemma_pairs_after_links(c: TokenChunk, k: int)
    requires
        c.wf(),
        0 <= k <= c.layout@.len(),
    ensures
        pairs_after(c.tokens@, c.layout@, k).len() == adjacent_pairs_from(c@, k).len(),
        forall|i: int| 0 <= i < pairs_after(c.tokens@, c.layout@, k).len() ==> {
            let p = #[trigger] pairs_after(c.tokens@, c.layout@, k)[i];
            &&& (p.0, p.1) == adjacent_pairs_from(c@, k)[i]
            &&& pair_on_link(c, p)
        },
    decreases c.layout@.len() - k,
{
    let lay = c.layout@;
    if k < lay.len() {
        lemma_pairs_after_links(c, k + 1);
        let ps = lay[k];
        assert(linked(c.next@, c.prev@, ps));
        let sp = segment_pairs(c.tokens@, ps);
        let rest = pairs_after(c.tokens@, lay, k + 1);
        let s = c@[k];
        assert(s.len() == ps.len());
        let sq = Seq::new(if s.len() > 0 { (s.len() - 1) as nat } else { 0nat }, |j: int| (s[j], s[j + 1]));
        let arest = adjacent_pairs_from(c@, k + 1);
        assert(pairs_after(c.tokens@, lay, k) == sp + rest);
        assert(adjacent_pairs_from(c@, k) == sq + arest);
        assert forall|i: int| 0 <= i < (sp + rest).len() implies {
            let p = #[trigger] (sp + rest)[i];
            &&& (p.0, p.1) == (sq + arest)[i]
            &&& pair_on_link(c, p)
        } by {
            if i < sp.len() {
                assert(s[i] == c.tokens@[ps[i]]);
                assert(s[i + 1] == c.tokens@[ps[i + 1]]);
                assert(c.next@[ps[i]] == ps[i + 1]);
                assert(0 <= ps[i] < c.tokens@.len());
                assert(0 <= ps[i + 1] < c.tokens@.len());
                assert((ps[i] as i32) as int == ps[i]);
            } else {
                assert((sp + rest)[i] == rest[i - sp.len()]);
                assert((sq + arest)[i] == arest[i - sq.len()]);
            }
        }
    }
}

/// Law: iterating over a chunk's pairs yields, segment after segment, the
/// adjacent tokens of each segment, each with its left token's position,
/// whose link leads to the right token's position.
pub proof fn law_pairs_follow_links(c: TokenChunk)
    requires
        c.wf(),
    ensures
        chunk_pairs(c).len() == adjacent_pairs_from(c@, 0).len(),
        forall|i: int| 0 <= i < chunk_pairs(c).len() ==> {
            let p = #[trigger] chunk_pairs(c)[i];
            &&& (p.0, p.1) == adjacent_pairs_from(c@, 0)[i]
            &&& pair_on_link(c, p)
        },
{
    lemma_pairs_after_links(c, 0);
}

/// Walks the adjacent pairs of a chunk, segment after segment.
pub struct PairIterator<'a> {
    chunk: &'a TokenChunk,
    segment_idx: usize,
    current: i32,
    /// The place of `current` within its segment.
    place: Ghost<int>,
}

impl<'a> PairIterator<'a> {
    /// The iterator's position is valid for its chunk.
    pub closed spec fn wf(&self) -> bool {
        let lay = self.chunk.layout@;
        &&& self.chunk.wf()
        &&& self.segment_idx <= lay.len()
        &&& self.segment_idx < lay.len() ==> {
            &&& 0 <= self.place@ < lay[self.segment_idx as int].len()
            &&& self.current == lay[self.segment_idx as int][self.place@]
        }
    }

    /// The pairs still to come.
    pub closed spec fn remaining(&self) -> Seq<(u32, u32, i32)> {
        let lay = self.chunk.layout@;
        if self.segment_idx < lay.len() {
            segment_pairs(self.chunk.tokens@, lay[self.segment_idx as int]).skip(self.place@) + pairs_after(
                self.chunk.tokens@,
                lay,
                self.segment_idx + 1,
            )
        } else {
            Seq::empty()
        }
    }

    /// The next pair, or `None` when all have been produced.
    #[verifier::rlimit(40)]
    pub fn next(&mut self) -> (r: Option<(u32, u32, i32)>)
        requires
            old(self).wf(),
        ensures
            final(self).wf(),
            r is Some ==> old(self).remaining().len() > 0 && r->0 == old(self).remaining()[0]
                && final(self).remaining() == old(self).remaining().drop_first(),
            r is None ==> old(self).remaining().len() == 0 && final(self).remaining().len() == 0,
    {
        loop
            invariant
                self.wf(),
                self.remaining() == old(self).remaining(),
                self.chunk == old(self).chunk,
            decreases self.chunk.layout@.len() - self.segment_idx,
        {
            let nheads = self.chunk.segment_heads.len();
            if self.segment_idx >= nheads {
                return None;
            }
            let current_idx = self.current as usize;
            proof {
                self.lemma_current_in_range();
            }
            let next_idx = self.chunk.next[current_idx];
            if next_idx < 0 {
                proof {
                    self.lemma_at_segment_end();
                }
                if self.segment_idx + 1 >= nheads {
                    self.segment_idx = nheads;
                    return None;
                }
                self.segment_idx = self.segment_idx + 1;
                self.current = self.chunk.segment_heads[self.segment_idx];
                proof {
                    self.place@ = 0;
                    self.lemma_segment_start();
                }
                continue;
            }
            proof {
                self.lemma_pair_step();
            }
            let left = self.chunk.tokens[current_idx];
            let right = self.chunk.tokens[next_idx as usize];
            let result = (left, right, self.current);
            self.current = next_idx;
            proof {
                self.place@ = self.place@ + 1;
            }
            return Some(result);
        }
    }

    proof fn lemma_current_in_range(&self)
        requires
            self.wf(),
            self.segment_idx < self.chunk.segment_heads@.len(),
        ensures
            0 <= self.current < self.chunk.tokens@.len(),
    {
        assert(linked(self.chunk.next@, self.chunk.prev@, self.chunk.layout@[self.segment_idx as int]));
    }

    /// At the end of a segment, the pairs to come are those of later
    /// segments.
    proof fn lemma_at_segment_end(&self)
        requires
            self.wf(),
            self.segment_idx < self.chunk.segment_heads@.len(),
            self.chunk.next@[self.current as int] < 0,
        ensures
            self.remaining() == pairs_after(self.chunk.tokens@, self.chunk.layout@, self.segment_idx + 1),
            self.segment_idx + 1 >= self.chunk.segment_heads@.len() ==> self.remaining().len() == 0,
    {
        let lay = self.chunk.layout@;
        let seg = lay[self.segment_idx as int];
        assert(linked(self.chunk.next@, self.chunk.prev@, seg));
        let j = self.place@;
        if j < seg.len() - 1 {
            assert(self.chunk.next@[seg[j]] == seg[j + 1]);
        }
        assert(j == seg.len() - 1);
        assert(segment_pairs(self.chunk.tokens@, seg).skip(j) =~= Seq::<(u32, u32, i32)>::empty());
        assert(segment_pairs(self.chunk.tokens@, seg).skip(j) + pairs_after(self.chunk.tokens@, lay, self.segment_idx + 1)
            =~= pairs_after(self.chunk.tokens@, lay, self.segment_idx + 1));
    }

    /// At the head of a segment, the pairs to come are those of it and of
    /// the later segments.
    proof fn lemma_segment_start(&self)
        requires
            self.chunk.wf(),
            self.segment_idx < self.chunk.segment_heads@.len(),
            self.place@ == 0,
            self.current == self.chunk.segment_heads@[self.segment_idx as int],
        ensures
            self.wf(),
            self.remaining() == pairs_after(self.chunk.tokens@, self.chunk.layout@, self.segment_idx as int),
    {
        let lay = self.chunk.layout@;
        let seg = lay[self.segment_idx as int];
        assert(linked(self.chunk.next@, self.chunk.prev@, seg));
        assert(segment_pairs(self.chunk.tokens@, seg).skip(0) =~= segment_pairs(self.chunk.tokens@, seg));
    }

    /// Inside a segment, the next pair is the current position and the one
    /// after it.
    proof fn lemma_pair_step(&self)
        requires
            self.wf(),
            self.segment_idx < self.chunk.segment_heads@.len(),
            self.chunk.next@[self.current as int] >= 0,
        ensures
            ({
                let seg = self.chunk.layout@[self.segment_idx as int];
                let j = self.place@;
                &&& j + 1 < seg.len()
                &&& self.chunk.next@[self.current as int] == seg[j + 1]
                &&& 0 <= seg[j + 1] < self.chunk.tokens@.len()
                &&& self.remaining().len() > 0
                &&& self.remaining()[0] == (
                    self.chunk.tokens@[self.current as int],
                    self.chunk.tokens@[seg[j + 1]],
                    self.current,
                )
                &&& segment_pairs(self.chunk.tokens@, seg).skip(j + 1) + pairs_after(
                    self.chunk.tokens@,
                    self.chunk.layout@,
                    self.segment_idx + 1,
                ) == self.remaining().drop_first()
            }),
    {
        let lay = self.chunk.layout@;
        let seg = lay[self.segment_idx as int];
        assert(linked(self.chunk.next@, self.chunk.prev@, seg));
        let j = self.place@;
        if j == seg.len() - 1 {
            assert(self.chunk.next@[seg.last()] == -1);
        }
        assert(self.chunk.next@[seg[j]] == seg[j + 1]);
        let sp = segment_pairs(self.chunk.tokens@, seg);
        let rest = pairs_after(self.chunk.tokens@, lay, self.segment_idx + 1);
        assert(sp.skip(j)[0] == sp[j]);
        assert((sp.skip(j) + rest)[0] == sp[j]);
        assert(sp.skip(j + 1) + rest =~= (sp.skip(j) + rest).drop_first());
    }
}

impl TokenChunk {
    /// Iterate over adjacent pairs across all segments.
    pub fn iter_pairs(&self) -> (it: PairIterator<'_>)
        requires
            self.wf(),
        ensures
            it.wf(),
            it.remaining() == chunk_pairs(*self),
    {
        let current = if self.segment_heads.len() > 0 { self.segment_heads[0] } else { -1 };
        let it = PairIterator { chunk: self, segment_idx: 0, current, place: Ghost(0) };
        proof {
            let lay = self.layout@;
            if lay.len() > 0 {
                assert(linked(self.next@, self.prev@, lay[0]));
                assert(segment_pairs(self.tokens@, lay[0]).skip(0) =~= segment_pairs(self.tokens@, lay[0]));
            } else {
                assert(pairs_after(self.tokens@, lay, 0) =~= Seq::<(u32, u32, i32)>::empty());
            }
        }
        it
    }
}


impl TokenChunk {
    /// Whether every live token of every segment is below `n`.
    pub fn all_below(&self, n: u32) -> (r: bool)
        requires
            self.wf(),
        ensures
            r == crate::trainer::tokens_below(self@, n as int),
    {
        let ghost lay = self.layout@;
        let ghost view = self@;
        let mut k: usize = 0;
        while k < self.segment_heads.len()
            invariant
                self.wf(),
                lay == self.layout@,
                view == self@,
                k <= lay.len(),
                forall|kk: int, j: int| 0 <= kk < k && 0 <= j < view[kk].len() ==> view[kk][j] < n,
            decreases lay.len() - k,
        {
            let ghost seg = lay[k as int];
            proof {
                assert(linked(self.next@, self.prev@, seg));
                assert(view[k as int].len() == seg.len());
                assert forall|jj: int| 0 <= jj < seg.len() implies view[k as int][jj] == self.tokens@[#[trigger] seg[jj]] by {}
            }
            let mut cur: i32 = self.segment_heads[k];
            let ok = self.segment_below(cur, n, Ghost(seg));
            if !ok {
                proof {
                    let j = choose|j: int| 0 <= j < seg.len() && self.tokens@[#[trigger] seg[j]] >= n;
                    assert(view[k as int][j] >= n);
                }
                return false;
            }
            proof {
                assert forall|j: int| 0 <= j < view[k as int].len() implies view[k as int][j] < n by {
                    assert(view[k as int][j] == self.tokens@[seg[j]]);
                }
            }
            k = k + 1;
        }
        true
    }

    /// Whether every token of the segment starting at `head` is below `n`.
    #[verifier::spinoff_prover]
    fn segment_below(&self, head: i32, n: u32, Ghost(seg): Ghost<Seq<int>>) -> (r: bool)
        requires
            linked(self.next@, self.prev@, seg),
            head == seg[0],
            self.next@.len() == self.tokens@.len(),
        ensures
            r == (forall|j: int| 0 <= j < seg.len() ==> self.tokens@[#[trigger] seg[j]] < n),
    {
        let mut cur: i32 = head;
        let ghost mut j: int = 0;
        while cur >= 0
            invariant
                linked(self.next@, self.prev@, seg),
                self.next@.len() == self.tokens@.len(),
                0 <= j <= seg.len(),
                j < seg.len() ==> cur == seg[j],
                j == seg.len() ==> cur == -1,
                forall|jj: int| 0 <= jj < j ==> self.tokens@[#[trigger] seg[jj]] < n,
            decreases seg.len() - j,
        {
            proof {
                if j == seg.len() {
                    assert(false);
                }
            }
            if self.tokens[cur as usize] >= n {
                return false;
            }
            proof {
                if j < seg.len() - 1 {
                    assert(self.next@[seg[j]] == seg[j + 1]);
                } else {
                    assert(self.next@[seg.last()] == -1);
                }
            }
            cur = self.next[cur as usize];
            proof {
                j = j + 1;
            }
        }
        proof {
            assert(j == seg.len());
        }
        true
    }
}

} // verus!
