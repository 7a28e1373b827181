//! The lines of a cold-start vocabulary file.
use vstd::prelude::*;
use crate::hardcoded::{HardcodedMerge, TRAINED_START};
use crate::tiktoken::{format_line, line_texts, tiktoken_line};
use crate::trainer::{
    cold_bytes, cold_rebuild, cold_rebuildable, lemma_cold_rebuild_fuel, reconstruct_token_bytes, TrainedMerge,
};

verus! {

/// The bytes written on line `i`: base byte `i`, then the hardcoded merges
/// in order, then each trained merge's token rebuilt from its halves.
pub open spec fn file_token_bytes(hardcoded: Seq<HardcodedMerge>, trained: Seq<TrainedMerge>, i: int) -> Seq<u8> {
    if i < 256 {
        seq![i as u8]
    } else if i < 256 + hardcoded.len() {
        hardcoded[i - 256].bytes@
    } else {
        cold_bytes(hardcoded, trained, trained[i - 256 - hardcoded.len()].new_token)
    }
}

/// Law: the file gives rank `b` to the single byte `b`, rank `256 + k` to
/// hardcoded merge `k`, and the ranks after those to the trained merges'
/// tokens, each in the order given.
pub proof fn law_file_in_rank_order(hardcoded: Seq<HardcodedMerge>, trained: Seq<TrainedMerge>)
    ensures
        forall|b: int| 0 <= b < 256 ==> #[trigger] file_token_bytes(hardcoded, trained, b) == seq![b as u8],
        forall|k: int| 0 <= k < hardcoded.len() ==> file_token_bytes(hardcoded, trained, 256 + k)
            == (#[trigger] hardcoded[k]).bytes@,
        forall|j: int| 0 <= j < trained.len() ==> file_token_bytes(hardcoded, trained, 256 + hardcoded.len() + j)
            == cold_bytes(hardcoded, trained, (#[trigger] trained[j]).new_token),
{
}

/// The lines of the .tiktoken file for a cold-start vocabulary, ranks
/// counted from 0: the 256 base bytes, the hardcoded merges, then the
/// trained merges. Special tokens are not written; whoever loads the file
/// adds them.
pub fn tiktoken_file_lines(hardcoded_merges: &[HardcodedMerge], trained_merges: &[TrainedMerge]) -> (lines: Vec<String>)
    requires
        256 + hardcoded_merges@.len() + trained_merges@.len() <= 0xFFFF_FFFF,
        forall|j: int| 0 <= j < trained_merges@.len() ==> cold_rebuildable(
            hardcoded_merges@,
            trained_merges@,
            (#[trigger] trained_merges@[j]).new_token,
        ),
    ensures
        lines@.len() == 256 + hardcoded_merges@.len() + trained_merges@.len(),
        forall|i: int| 0 <= i < lines@.len() ==> #[trigger] line_texts(lines@)[i] == tiktoken_line(
            file_token_bytes(hardcoded_merges@, trained_merges@, i),
            i as nat,
        ),
        forall|b: int| 0 <= b < 256 ==> #[trigger] line_texts(lines@)[b] == tiktoken_line(seq![b as u8], b as nat),
        forall|k: int| 0 <= k < hardcoded_merges@.len() ==> line_texts(lines@)[256 + k] == tiktoken_line(
            (#[trigger] hardcoded_merges@[k]).bytes@,
            (256 + k) as nat,
        ),
        forall|j: int| 0 <= j < trained_merges@.len() ==> line_texts(lines@)[256 + hardcoded_merges@.len() + j]
            == tiktoken_line(
            cold_bytes(hardcoded_merges@, trained_merges@, (#[trigger] trained_merges@[j]).new_token),
            (256 + hardcoded_merges@.len() + j) as nat,
        ),
{
    let ghost h = hardcoded_merges@;
    let ghost tr = trained_merges@;
    let mut lines: Vec<String> = Vec::new();
    let mut rank: u32 = 0;
    let mut byte: u32 = 0;
    while byte < 256
        invariant
            byte <= 256,
            rank == byte,
            lines@.len() == rank,
            forall|i: int| 0 <= i < lines@.len() ==> #[trigger] line_texts(lines@)[i] == tiktoken_line(
                file_token_bytes(h, tr, i),
                i as nat,
            ),
        decreases 256 - byte,
    {
        let mut one: Vec<u8> = Vec::new();
        one.push(byte as u8);
        let line = format_line(one.as_slice(), rank);
        let ghost before = lines@;
        lines.push(line);
        proof {
            assert(one@ =~= seq![byte as u8]);
            assert(line_texts(lines@) =~= line_texts(before).push(line@));
        }
        rank = rank + 1;
        byte = byte + 1;
    }
    let mut k: usize = 0;
    while k < hardcoded_merges.len()
        invariant
            h == hardcoded_merges@,
            tr == trained_merges@,
            256 + h.len() + tr.len() <= 0xFFFF_FFFF,
            k <= h.len(),
            rank == 256 + k,
            lines@.len() == rank,
            forall|i: int| 0 <= i < lines@.len() ==> #[trigger] line_texts(lines@)[i] == tiktoken_line(
                file_token_bytes(h, tr, i),
                i as nat,
            ),
        decreases h.len() - k,
    {
        let line = format_line(hardcoded_merges[k].bytes.as_slice(), rank);
        let ghost before = lines@;
        lines.push(line);
        proof {
            assert(line_texts(lines@) =~= line_texts(before).push(line@));
        }
        rank = rank + 1;
        k = k + 1;
    }
    let mut j: usize = 0;
    while j < trained_merges.len()
        invariant
            h == hardcoded_merges@,
            tr == trained_merges@,
            256 + h.len() + tr.len() <= 0xFFFF_FFFF,
            j <= tr.len(),
            rank == 256 + h.len() + j,
            lines@.len() == rank,
            forall|jj: int| 0 <= jj < tr.len() ==> cold_rebuildable(h, tr, (#[trigger] tr[jj]).new_token),
            forall|i: int| 0 <= i < lines@.len() ==> #[trigger] line_texts(lines@)[i] == tiktoken_line(
                file_token_bytes(h, tr, i),
                i as nat,
            ),
        decreases tr.len() - j,
    {
        let bytes = reconstruct_token_bytes(trained_merges[j].new_token, hardcoded_merges, trained_merges);
        let line = format_line(bytes.as_slice(), rank);
        let ghost before = lines@;
        lines.push(line);
        proof {
            assert(line_texts(lines@) =~= line_texts(before).push(line@));
        }
        rank = rank + 1;
        j = j + 1;
    }
    proof {
        assert forall|b: int| 0 <= b < 256 implies #[trigger] line_texts(lines@)[b] == tiktoken_line(
            seq![b as u8],
            b as nat,
        ) by {
            assert(file_token_bytes(h, tr, b) == seq![b as u8]);
        }
        assert forall|k: int| 0 <= k < h.len() implies line_texts(lines@)[256 + k] == tiktoken_line(
            (#[trigger] h[k]).bytes@,
            (256 + k) as nat,
        ) by {
            assert(line_texts(lines@)[256 + k] == tiktoken_line(file_token_bytes(h, tr, 256 + k), (256 + k) as nat));
        }
        assert forall|jj: int| 0 <= jj < tr.len() implies line_texts(lines@)[256 + h.len() + jj] == tiktoken_line(
            cold_bytes(h, tr, (#[trigger] tr[jj]).new_token),
            (256 + h.len() + jj) as nat,
        ) by {
            let i = 256 + h.len() + jj;
            assert(line_texts(lines@)[i] == tiktoken_line(file_token_bytes(h, tr, i), i as nat));
        }
    }
    lines
}


/// How many trained merges can stand for a `u32` token ID.
spec fn id_limit(n: int) -> int {
    if n < 0x1_0000_0000 - TRAINED_START { n } else { 0x1_0000_0000 - TRAINED_START }
}

/// Token `t` is known to rebuild: a base byte, a hardcoded merge that
/// exists, a trained merge marked in `known`, or a token past the merges.
spec fn resolved(h_len: int, n: int, known: Seq<bool>, t: u32) -> bool {
    if t < 256 {
        true
    } else if t < TRAINED_START {
        t - 256 < h_len
    } else if t - TRAINED_START < n {
        known[t - TRAINED_START]
    } else {
        true
    }
}

/// Both halves of trained merge `k` are known to rebuild.
spec fn halves_resolved(h_len: int, tr: Seq<TrainedMerge>, known: Seq<bool>, k: int) -> bool {
    &&& resolved(h_len, tr.len() as int, known, tr[k].left_token)
    &&& resolved(h_len, tr.len() as int, known, tr[k].right_token)
}

/// No further trained merge can be marked.
spec fn settled(h_len: int, tr: Seq<TrainedMerge>, known: Seq<bool>) -> bool {
    forall|k: int| 0 <= k < known.len() ==> known[k] || !#[trigger] halves_resolved(h_len, tr, known, k)
}

/// Every marked trained merge's token rebuilds.
spec fn known_sound(h: Seq<HardcodedMerge>, tr: Seq<TrainedMerge>, known: Seq<bool>) -> bool {
    forall|k: int| 0 <= k < known.len() && #[trigger] known[k] ==> cold_rebuildable(
        h,
        tr,
        (TRAINED_START + k) as u32,
    )
}

/// A token resolved by sound marks rebuilds.
proof fn lemma_resolved_rebuilds(h: Seq<HardcodedMerge>, tr: Seq<TrainedMerge>, known: Seq<bool>, t: u32)
    requires
        known.len() == id_limit(tr.len() as int),
        known_sound(h, tr, known),
        resolved(h.len() as int, tr.len() as int, known, t),
    ensures
        cold_rebuildable(h, tr, t),
{
    if t < TRAINED_START || t - TRAINED_START >= tr.len() {
        assert(cold_rebuild(h, tr, t, 1) is Some);
    } else {
        let k = t - TRAINED_START;
        assert(known[k]);
        assert((TRAINED_START + k) as u32 == t);
    }
}

/// Once no merge can be marked, every token that rebuilds is resolved.
proof fn lemma_settled_complete(h: Seq<HardcodedMerge>, tr: Seq<TrainedMerge>, known: Seq<bool>, t: u32, fuel: nat)
    requires
        known.len() == id_limit(tr.len() as int),
        settled(h.len() as int, tr, known),
        cold_rebuild(h, tr, t, fuel) is Some,
    ensures
        resolved(h.len() as int, tr.len() as int, known, t),
    decreases fuel,
{
    if t >= TRAINED_START && t - TRAINED_START < tr.len() {
        let k = t - TRAINED_START;
        let m = tr[k];
        lemma_settled_complete(h, tr, known, m.left_token, (fuel - 1) as nat);
        lemma_settled_complete(h, tr, known, m.right_token, (fuel - 1) as nat);
        assert(halves_resolved(h.len() as int, tr, known, k));
    }
}

/// Whether token `t` is resolved by the marks in `known`.
fn token_resolved(t: u32, h_len: usize, n: usize, known: &Vec<bool>) -> (r: bool)
    requires
        known@.len() == id_limit(n as int),
    ensures
        r == resolved(h_len as int, n as int, known@, t),
{
    if t < 256 {
        true
    } else if t < TRAINED_START {
        ((t - 256) as usize) < h_len
    } else {
        let k = (t - TRAINED_START) as usize;
        if k < n {
            known[k]
        } else {
            true
        }
    }
}

/// Checks that every trained merge's token can be rebuilt: no merge it
/// reaches leads back to itself, and every hardcoded token it reaches
/// exists. Trained merges are marked round by round, each once both of
/// its halves are known to rebuild, until a round marks nothing.
pub fn merges_rebuildable(hardcoded_merges: &[HardcodedMerge], trained_merges: &[TrainedMerge]) -> (r: bool)
    ensures
        r == forall|j: int| 0 <= j < trained_merges@.len() ==> cold_rebuildable(
            hardcoded_merges@,
            trained_merges@,
            (#[trigger] trained_merges@[j]).new_token,
        ),
{
    let ghost h = hardcoded_merges@;
    let ghost tr = trained_merges@;
    let n = trained_merges.len();
    let h_len = hardcoded_merges.len();
    let limit: usize = if n < (0xFFFF_FFFFu32 - TRAINED_START) as usize + 1 {
        n
    } else {
        (0xFFFF_FFFFu32 - TRAINED_START) as usize + 1
    };
    let mut known: Vec<bool> = vec![false; limit];
    let ghost mut marked: Set<int> = Set::empty();
    proof {
        vstd::set_lib::lemma_int_range(0, limit as int);
        assert(marked =~= Set::new(|k: int| 0 <= k < limit && known@[k]));
    }
    loop
        invariant
            h == hardcoded_merges@,
            tr == trained_merges@,
            n == tr.len(),
            h_len == h.len(),
            limit == id_limit(n as int),
            known@.len() == limit,
            known_sound(h, tr, known@),
            marked.finite(),
            marked.subset_of(vstd::set_lib::set_int_range(0, limit as int)),
            forall|k: int| #[trigger] marked.contains(k) <==> 0 <= k < limit && known@[k],
            vstd::set_lib::set_int_range(0, limit as int).finite(),
            vstd::set_lib::set_int_range(0, limit as int).len() == limit,
        ensures
            known@.len() == limit,
            known_sound(h, tr, known@),
            settled(h.len() as int, tr, known@),
        decreases limit - marked.len(),
    {
        let ghost round_start = known@;
        let ghost marked0 = marked;
        let mut changed = false;
        let mut k: usize = 0;
        while k < limit
            invariant
                h == hardcoded_merges@,
                tr == trained_merges@,
                n == tr.len(),
                h_len == h.len(),
                limit == id_limit(n as int),
                k <= limit,
                known@.len() == limit,
                known_sound(h, tr, known@),
                marked.finite(),
                marked0.finite(),
                marked0.subset_of(marked),
                marked.subset_of(vstd::set_lib::set_int_range(0, limit as int)),
                forall|x: int| #[trigger] marked.contains(x) <==> 0 <= x < limit && known@[x],
                changed ==> marked.len() > marked0.len(),
                !changed ==> known@ == round_start,
                !changed ==> forall|x: int| 0 <= x < k ==> known@[x] || !#[trigger] halves_resolved(
                    h.len() as int,
                    tr,
                    known@,
                    x,
                ),
            decreases limit - k,
        {
            if !known[k] {
                let m = &trained_merges[k];
                let l_ok = token_resolved(m.left_token, h_len, n, &known);
                let r_ok = token_resolved(m.right_token, h_len, n, &known);
                if l_ok && r_ok {
                    proof {
                        lemma_resolved_rebuilds(h, tr, known@, m.left_token);
                        lemma_resolved_rebuilds(h, tr, known@, m.right_token);
                        let fl = choose|f: nat| #[trigger] cold_rebuild(h, tr, m.left_token, f) is Some;
                        let fr = choose|f: nat| #[trigger] cold_rebuild(h, tr, m.right_token, f) is Some;
                        let f: nat = if fl < fr { fr } else { fl };
                        lemma_cold_rebuild_fuel(h, tr, m.left_token, fl, f);
                        lemma_cold_rebuild_fuel(h, tr, m.right_token, fr, f);
                        let t = (TRAINED_START + k) as u32;
                        assert(t - TRAINED_START == k);
                        assert(cold_rebuild(h, tr, t, f + 1) is Some);
                    }
                    let ghost before = known@;
                    known.set(k, true);
                    proof {
                        assert(!marked.contains(k as int));
                        marked = marked.insert(k as int);
                        assert forall|x: int| 0 <= x < known@.len() && #[trigger] known@[x] implies cold_rebuildable(
                            h,
                            tr,
                            (TRAINED_START + x) as u32,
                        ) by {
                            if x != k {
                                assert(before[x]);
                            }
                        }
                        vstd::set_lib::lemma_len_subset(marked0, marked.remove(k as int));
                    }
                    changed = true;
                }
            }
            k = k + 1;
        }
        if !changed {
            proof {
                assert forall|x: int| 0 <= x < known@.len() implies known@[x] || !#[trigger] halves_resolved(
                    h.len() as int,
                    tr,
                    known@,
                    x,
                ) by {}
            }
            break;
        }
        proof {
            vstd::set_lib::lemma_len_subset(marked, vstd::set_lib::set_int_range(0, limit as int));
        }
    }
    let mut j: usize = 0;
    while j < n
        invariant
            h == hardcoded_merges@,
            tr == trained_merges@,
            n == tr.len(),
            h_len == h.len(),
            limit == id_limit(n as int),
            known@.len() == limit,
            known_sound(h, tr, known@),
            settled(h.len() as int, tr, known@),
            j <= n,
            forall|jj: int| 0 <= jj < j ==> cold_rebuildable(h, tr, (#[trigger] tr[jj]).new_token),
        decreases n - j,
    {
        let t = trained_merges[j].new_token;
        if !token_resolved(t, h_len, n, &known) {
            proof {
                if cold_rebuildable(h, tr, t) {
                    let f = choose|f: nat| #[trigger] cold_rebuild(h, tr, t, f) is Some;
                    lemma_settled_complete(h, tr, known@, t, f);
                }
                assert(!cold_rebuildable(h, tr, tr[j as int].new_token));
            }
            return false;
        }
        proof {
            lemma_resolved_rebuilds(h, tr, known@, t);
        }
        j = j + 1;
    }
    true
}

} // verus!
