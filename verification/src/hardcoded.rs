//! The fixed merges that every cold-start vocabulary begins with, and their
//! application to raw bytes.
use vstd::prelude::*;
use ahash::AHashMap;
use crate::maps::{
    bytes_table, bytes_table_insert, bytes_table_new, pair_table, pair_table_get,
    pair_table_insert, pair_table_new,
};

verus! {

/// Number of base byte tokens (0-255).
pub const BASE_VOCAB_SIZE: u32 = 256;

/// Starting ID for hardcoded merges.
pub const HARDCODED_START: u32 = 256;

/// Total number of hardcoded merges.
pub const HARDCODED_COUNT: u32 = 1161;

/// First trained merge ID.
pub const TRAINED_START: u32 = HARDCODED_START + HARDCODED_COUNT;

/// Hardcoded merge information: the byte sequence, its token ID, and the
/// two tokens it is merged from.
#[derive(Debug, Clone)]
pub struct HardcodedMerge {
    pub bytes: Vec<u8>,
    pub token_id: u32,
    pub left_token: u32,
    pub right_token: u32,
}

// ---------------------------------------------------------------------------
// The hardcoded table, as mathematics
// ---------------------------------------------------------------------------

/// An ASCII digit byte.
pub open spec fn is_digit(b: int) -> bool {
    48 <= b <= 57
}

/// The twenty programming operators, in rank order.
pub open spec fn op_pair(o: int) -> (u8, u8) {
    if o == 0 { (61u8, 61u8) }            // ==
    else if o == 1 { (33u8, 61u8) }       // !=
    else if o == 2 { (60u8, 61u8) }       // <=
    else if o == 3 { (62u8, 61u8) }       // >=
    else if o == 4 { (43u8, 61u8) }       // +=
    else if o == 5 { (45u8, 61u8) }       // -=
    else if o == 6 { (42u8, 61u8) }       // *=
    else if o == 7 { (47u8, 61u8) }       // /=
    else if o == 8 { (45u8, 62u8) }       // ->
    else if o == 9 { (61u8, 62u8) }       // =>
    else if o == 10 { (58u8, 58u8) }      // ::
    else if o == 11 { (47u8, 47u8) }      // //
    else if o == 12 { (47u8, 42u8) }      // /*
    else if o == 13 { (42u8, 47u8) }      // */
    else if o == 14 { (38u8, 38u8) }      // &&
    else if o == 15 { (124u8, 124u8) }    // ||
    else if o == 16 { (43u8, 43u8) }      // ++
    else if o == 17 { (45u8, 45u8) }      // --
    else if o == 18 { (60u8, 60u8) }      // <<
    else { (62u8, 62u8) }                 // >>
}

/// Which operator the two bytes spell, or -1.
pub open spec fn op_index(a: int, b: int) -> int {
    if a == 61 && b == 61 { 0 }
    else if a == 33 && b == 61 { 1 }
    else if a == 60 && b == 61 { 2 }
    else if a == 62 && b == 61 { 3 }
    else if a == 43 && b == 61 { 4 }
    else if a == 45 && b == 61 { 5 }
    else if a == 42 && b == 61 { 6 }
    else if a == 47 && b == 61 { 7 }
    else if a == 45 && b == 62 { 8 }
    else if a == 61 && b == 62 { 9 }
    else if a == 58 && b == 58 { 10 }
    else if a == 47 && b == 47 { 11 }
    else if a == 47 && b == 42 { 12 }
    else if a == 42 && b == 47 { 13 }
    else if a == 38 && b == 38 { 14 }
    else if a == 124 && b == 124 { 15 }
    else if a == 43 && b == 43 { 16 }
    else if a == 45 && b == 45 { 17 }
    else if a == 60 && b == 60 { 18 }
    else if a == 62 && b == 62 { 19 }
    else { -1 }
}

/// Token of a run of `k` spaces (1 <= k <= 32).
pub open spec fn space_token(k: int) -> int {
    if k == 1 { 32 } else { 1354 + k }
}

/// Token of a run of `k` newlines (1 <= k <= 8).
pub open spec fn newline_token(k: int) -> int {
    if k == 1 { 10 } else { 1385 + k }
}

/// Bytes of hardcoded merge `i` (0 <= i < 1161): two-digit numbers, then
/// three-digit numbers, 2..=32 spaces, 2..=8 newlines, "\r\n", the
/// operators, "..", "...".
pub open spec fn hardcoded_bytes(i: int) -> Seq<u8> {
    if i < 100 {
        seq![(48 + i / 10) as u8, (48 + i % 10) as u8]
    } else if i < 1100 {
        let j = i - 100;
        seq![(48 + j / 100) as u8, (48 + (j / 10) % 10) as u8, (48 + j % 10) as u8]
    } else if i < 1131 {
        Seq::new((i - 1098) as nat, |_k: int| 32u8)
    } else if i < 1138 {
        Seq::new((i - 1129) as nat, |_k: int| 10u8)
    } else if i == 1138 {
        seq![13u8, 10u8]
    } else if i < 1159 {
        seq![op_pair(i - 1139).0, op_pair(i - 1139).1]
    } else if i == 1159 {
        seq![46u8, 46u8]
    } else {
        seq![46u8, 46u8, 46u8]
    }
}

/// Left token of hardcoded merge `i`.
pub open spec fn hardcoded_left(i: int) -> int {
    if i < 100 {
        48 + i / 10
    } else if i < 1100 {
        let j = i - 100;
        256 + (j / 100) * 10 + (j / 10) % 10
    } else if i < 1131 {
        space_token((i - 1098) / 2)
    } else if i < 1138 {
        newline_token((i - 1129) / 2)
    } else if i == 1138 {
        13
    } else if i < 1159 {
        op_pair(i - 1139).0 as int
    } else if i == 1159 {
        46
    } else {
        1415
    }
}

/// Right token of hardcoded merge `i`.
pub open spec fn hardcoded_right(i: int) -> int {
    if i < 100 {
        48 + i % 10
    } else if i < 1100 {
        48 + (i - 100) % 10
    } else if i < 1131 {
        space_token((i - 1098) - (i - 1098) / 2)
    } else if i < 1138 {
        newline_token((i - 1129) - (i - 1129) / 2)
    } else if i == 1138 {
        10
    } else if i < 1159 {
        op_pair(i - 1139).1 as int
    } else {
        46
    }
}

/// Bytes of token `t` of the cold-start base vocabulary (0 <= t < 1417).
pub open spec fn base_token_bytes(t: int) -> Seq<u8> {
    if t < 256 {
        seq![t as u8]
    } else {
        hardcoded_bytes(t - 256)
    }
}

/// Every byte of `b` is `x`.
pub open spec fn all_bytes_are(b: Seq<u8>, x: u8) -> bool {
    forall|k: int| 0 <= k < b.len() ==> b[k] == x
}

/// The base-vocabulary token with these bytes, or -1.
pub open spec fn token_of_bytes(b: Seq<u8>) -> int {
    if b.len() == 1 {
        b[0] as int
    } else if b.len() == 2 && is_digit(b[0] as int) && is_digit(b[1] as int) {
        256 + (b[0] - 48) * 10 + (b[1] - 48)
    } else if b.len() == 3 && is_digit(b[0] as int) && is_digit(b[1] as int) && is_digit(b[2] as int) {
        356 + (b[0] - 48) * 100 + (b[1] - 48) * 10 + (b[2] - 48)
    } else if 2 <= b.len() <= 32 && all_bytes_are(b, 32) {
        1354 + b.len() as int
    } else if 2 <= b.len() <= 8 && all_bytes_are(b, 10) {
        1385 + b.len() as int
    } else if b.len() == 2 && b[0] == 13 && b[1] == 10 {
        1394
    } else if b.len() == 2 && op_index(b[0] as int, b[1] as int) >= 0 {
        1395 + op_index(b[0] as int, b[1] as int)
    } else if b.len() == 2 && b[0] == 46 && b[1] == 46 {
        1415
    } else if b.len() == 3 && b[0] == 46 && b[1] == 46 && b[2] == 46 {
        1416
    } else {
        -1
    }
}

pub open spec fn space_size(t: int) -> int {
    if t == 32 { 1 } else if 1356 <= t <= 1386 { t - 1354 } else { 0 }
}

pub open spec fn newline_size(t: int) -> int {
    if t == 10 { 1 } else if 1387 <= t <= 1393 { t - 1385 } else { 0 }
}

/// The hardcoded merge of the pair `(l, r)`, or -1.
pub open spec fn merge_of_pair(l: int, r: int) -> int {
    if is_digit(l) && is_digit(r) {
        (l - 48) * 10 + (r - 48)
    } else if 256 <= l < 356 && is_digit(r) {
        100 + (l - 256) * 10 + (r - 48)
    } else if space_size(l) > 0 && space_size(r) > 0 && space_size(l) + space_size(r) <= 32
        && space_size(l) == (space_size(l) + space_size(r)) / 2 {
        1098 + space_size(l) + space_size(r)
    } else if newline_size(l) > 0 && newline_size(r) > 0 && newline_size(l) + newline_size(r) <= 8
        && newline_size(l) == (newline_size(l) + newline_size(r)) / 2 {
        1129 + newline_size(l) + newline_size(r)
    } else if l == 13 && r == 10 {
        1138
    } else if op_index(l, r) >= 0 {
        1139 + op_index(l, r)
    } else if l == 46 && r == 46 {
        1159
    } else if l == 1415 && r == 46 {
        1160
    } else {
        -1
    }
}

/// The byte-to-ID table of the base vocabulary of tokens `0..n`.
pub open spec fn base_vocab_table(n: int) -> Map<Seq<u8>, u32> {
    Map::new(
        |b: Seq<u8>| 0 <= token_of_bytes(b) < n && base_token_bytes(token_of_bytes(b)) == b,
        |b: Seq<u8>| token_of_bytes(b) as u32,
    )
}

/// The pair-to-ID table of hardcoded merges `0..n`.
pub open spec fn hardcoded_pair_table(n: int) -> Map<(u32, u32), u32> {
    Map::new(
        |p: (u32, u32)|
            0 <= merge_of_pair(p.0 as int, p.1 as int) < n && hardcoded_left(merge_of_pair(p.0 as int, p.1 as int))
                == p.0 && hardcoded_right(merge_of_pair(p.0 as int, p.1 as int)) == p.1,
        |p: (u32, u32)| (256 + merge_of_pair(p.0 as int, p.1 as int)) as u32,
    )
}

// ---------------------------------------------------------------------------
// Facts about the hardcoded table
// ---------------------------------------------------------------------------

proof fn lemma_op_inverse(o: int)
    requires
        0 <= o < 20,
    ensures
        op_index(op_pair(o).0 as int, op_pair(o).1 as int) == o,
        !is_digit(op_pair(o).0 as int),
        op_pair(o).0 != 32 && op_pair(o).0 != 10 && op_pair(o).0 != 13 && op_pair(o).0 != 46,
        op_pair(o).0 < 256 && op_pair(o).1 < 256,
{
    assert(o == 0 || o == 1 || o == 2 || o == 3 || o == 4 || o == 5 || o == 6 || o == 7 || o == 8
        || o == 9 || o == 10 || o == 11 || o == 12 || o == 13 || o == 14 || o == 15 || o == 16
        || o == 17 || o == 18 || o == 19);
}

proof fn lemma_three_digits(j: int)
    requires
        0 <= j < 1000,
    ensures
        0 <= j / 100 < 10,
        0 <= (j / 10) % 10 < 10,
        0 <= j % 10 < 10,
        (j / 100) * 100 + ((j / 10) % 10) * 10 + j % 10 == j,
        (j / 100) * 10 + (j / 10) % 10 == j / 10,
{
    assert((j / 100) * 100 + ((j / 10) % 10) * 10 + j % 10 == j) by (nonlinear_arith)
        requires 0 <= j < 1000;
    assert((j / 100) * 10 + (j / 10) % 10 == j / 10) by (nonlinear_arith)
        requires 0 <= j < 1000;
}

/// Every base-vocabulary token is recovered from its bytes, so distinct
/// tokens have distinct bytes.
pub proof fn lemma_token_of_bytes_inverse(t: int)
    requires
        0 <= t < 1417,
    ensures
        token_of_bytes(base_token_bytes(t)) == t,
{
    let b = base_token_bytes(t);
    if t < 256 {
    } else {
        let i = t - 256;
        if i < 100 {
        } else if i < 1100 {
            lemma_three_digits(i - 100);
        } else if i < 1131 {
            assert(all_bytes_are(b, 32));
        } else if i < 1138 {
            assert(!all_bytes_are(b, 32)) by {
                assert(b[0] == 10);
            }
            assert(all_bytes_are(b, 10));
        } else if i == 1138 {
            assert(!all_bytes_are(b, 32)) by {
                assert(b[0] == 13);
            }
            assert(!all_bytes_are(b, 10)) by {
                assert(b[0] == 13);
            }
        } else if i < 1159 {
            lemma_op_inverse(i - 1139);
            assert(!all_bytes_are(b, 32)) by {
                assert(b[0] != 32);
            }
            assert(!all_bytes_are(b, 10)) by {
                assert(b[0] != 10);
            }
        } else if i == 1159 {
            assert(!all_bytes_are(b, 32)) by {
                assert(b[0] == 46);
            }
            assert(!all_bytes_are(b, 10)) by {
                assert(b[0] == 46);
            }
        } else {
            assert(!all_bytes_are(b, 32)) by {
                assert(b[0] == 46);
            }
            assert(!all_bytes_are(b, 10)) by {
                assert(b[0] == 46);
            }
        }
    }
}

/// Every hardcoded merge is recovered from its pair, so distinct merges
/// have distinct pairs.
pub proof fn lemma_merge_of_pair_inverse(i: int)
    requires
        0 <= i < 1161,
    ensures
        merge_of_pair(hardcoded_left(i), hardcoded_right(i)) == i,
{
    if i < 100 {
    } else if i < 1100 {
        lemma_three_digits(i - 100);
    } else if i < 1131 {
    } else if i < 1138 {
    } else if i == 1138 {
    } else if i < 1159 {
        lemma_op_inverse(i - 1139);
    } else {
    }
}

/// Each hardcoded merge joins two earlier tokens whose bytes, concatenated,
/// are the merge's bytes.
pub proof fn lemma_hardcoded_is_merge(i: int)
    requires
        0 <= i < 1161,
    ensures
        0 <= hardcoded_left(i) < 256 + i,
        0 <= hardcoded_right(i) < 256 + i,
        base_token_bytes(hardcoded_left(i)) + base_token_bytes(hardcoded_right(i)) == hardcoded_bytes(i),
{
    let l = hardcoded_left(i);
    let r = hardcoded_right(i);
    if i < 100 {
        assert(base_token_bytes(l) + base_token_bytes(r) =~= hardcoded_bytes(i));
    } else if i < 1100 {
        let j = i - 100;
        lemma_three_digits(j);
        assert(base_token_bytes(l) =~= seq![(48 + j / 100) as u8, (48 + (j / 10) % 10) as u8]);
        assert(base_token_bytes(l) + base_token_bytes(r) =~= hardcoded_bytes(i));
    } else if i < 1131 {
        let n = i - 1098;
        let h = n / 2;
        assert(base_token_bytes(l) =~= Seq::new(h as nat, |_k: int| 32u8));
        assert(base_token_bytes(r) =~= Seq::new((n - h) as nat, |_k: int| 32u8));
        assert(base_token_bytes(l) + base_token_bytes(r) =~= hardcoded_bytes(i));
    } else if i < 1138 {
        let n = i - 1129;
        let h = n / 2;
        assert(base_token_bytes(l) =~= Seq::new(h as nat, |_k: int| 10u8));
        assert(base_token_bytes(r) =~= Seq::new((n - h) as nat, |_k: int| 10u8));
        assert(base_token_bytes(l) + base_token_bytes(r) =~= hardcoded_bytes(i));
    } else if i == 1138 {
        assert(base_token_bytes(l) + base_token_bytes(r) =~= hardcoded_bytes(i));
    } else if i < 1159 {
        lemma_op_inverse(i - 1139);
        assert(base_token_bytes(l) + base_token_bytes(r) =~= hardcoded_bytes(i));
    } else {
        assert(base_token_bytes(l) + base_token_bytes(r) =~= hardcoded_bytes(i));
    }
}

// ---------------------------------------------------------------------------
// Building the table
// ---------------------------------------------------------------------------

fn operator_bytes(o: u32) -> (r: (u8, u8))
    requires
        o < 20,
    ensures
        r == op_pair(o as int),
{
    match o {
        0 => (61u8, 61u8),
        1 => (33u8, 61u8),
        2 => (60u8, 61u8),
        3 => (62u8, 61u8),
        4 => (43u8, 61u8),
        5 => (45u8, 61u8),
        6 => (42u8, 61u8),
        7 => (47u8, 61u8),
        8 => (45u8, 62u8),
        9 => (61u8, 62u8),
        10 => (58u8, 58u8),
        11 => (47u8, 47u8),
        12 => (47u8, 42u8),
        13 => (42u8, 47u8),
        14 => (38u8, 38u8),
        15 => (124u8, 124u8),
        16 => (43u8, 43u8),
        17 => (45u8, 45u8),
        18 => (60u8, 60u8),
        _ => (62u8, 62u8),
    }
}

/// A run of `n` copies of `b`.
fn repeated_byte(b: u8, n: usize) -> (v: Vec<u8>)
    ensures
        v@ == Seq::new(n as nat, |_k: int| b),
{
    let mut v: Vec<u8> = Vec::new();
    let mut k: usize = 0;
    while k < n
        invariant
            k <= n,
            v@ == Seq::new(k as nat, |_k: int| b),
        decreases n - k,
    {
        v.push(b);
        k = k + 1;
        assert(v@ =~= Seq::new(k as nat, |_k: int| b));
    }
    v
}

/// Bytes, left token and right token of hardcoded merge `i`.
fn hardcoded_entry(i: u32) -> (r: (Vec<u8>, u32, u32))
    requires
        i < 1161,
    ensures
        r.0@ == hardcoded_bytes(i as int),
        r.1 == hardcoded_left(i as int),
        r.2 == hardcoded_right(i as int),
{
    if i < 100 {
        let tens = (i / 10) as u8;
        let ones = (i % 10) as u8;
        let mut v: Vec<u8> = Vec::new();
        v.push(48u8 + tens);
        v.push(48u8 + ones);
        assert(v@ =~= hardcoded_bytes(i as int));
        (v, (48u8 + tens) as u32, (48u8 + ones) as u32)
    } else if i < 1100 {
        let j = i - 100;
        let hundreds = (j / 100) as u8;
        let tens = ((j / 10) % 10) as u8;
        let ones = (j % 10) as u8;
        let mut v: Vec<u8> = Vec::new();
        v.push(48u8 + hundreds);
        v.push(48u8 + tens);
        v.push(48u8 + ones);
        assert(v@ =~= hardcoded_bytes(i as int));
        let two_digit_id = HARDCODED_START + (hundreds as u32 * 10) + (tens as u32);
        (v, two_digit_id, (48u8 + ones) as u32)
    } else if i < 1131 {
        let n = (i - 1098) as usize;
        let half = n / 2;
        let left = if half == 1 { 32u8 as u32 } else { 1354 + half as u32 };
        let rest = n - half;
        let right = if rest == 1 { 32u8 as u32 } else { 1354 + rest as u32 };
        (repeated_byte(32u8, n), left, right)
    } else if i < 1138 {
        let n = (i - 1129) as usize;
        let half = n / 2;
        let left = if half == 1 { 10u8 as u32 } else { 1385 + half as u32 };
        let rest = n - half;
        let right = if rest == 1 { 10u8 as u32 } else { 1385 + rest as u32 };
        (repeated_byte(10u8, n), left, right)
    } else if i == 1138 {
        let mut v: Vec<u8> = Vec::new();
        v.push(13u8);
        v.push(10u8);
        assert(v@ =~= hardcoded_bytes(i as int));
        (v, 13u8 as u32, 10u8 as u32)
    } else if i < 1159 {
        let (a, b) = operator_bytes(i - 1139);
        let mut v: Vec<u8> = Vec::new();
        v.push(a);
        v.push(b);
        assert(v@ =~= hardcoded_bytes(i as int));
        (v, a as u32, b as u32)
    } else if i == 1159 {
        let mut v: Vec<u8> = Vec::new();
        v.push(46u8);
        v.push(46u8);
        assert(v@ =~= hardcoded_bytes(i as int));
        (v, 46u8 as u32, 46u8 as u32)
    } else {
        let mut v: Vec<u8> = Vec::new();
        v.push(46u8);
        v.push(46u8);
        v.push(46u8);
        assert(v@ =~= hardcoded_bytes(i as int));
        (v, HARDCODED_START + 1159, 46u8 as u32)
    }
}

/// Generates all hardcoded merges, in order, together with the byte-to-ID
/// table of the base vocabulary (256 bytes and every merge) and the
/// pair-to-ID table of the merges.
pub fn generate_hardcoded_merges() -> (r: (Vec<HardcodedMerge>, AHashMap<Vec<u8>, u32>, AHashMap<(u32, u32), u32>))
    ensures
        r.0@.len() == HARDCODED_COUNT,
        forall|i: int| 0 <= i < HARDCODED_COUNT ==> {
            &&& (#[trigger] r.0@[i]).bytes@ == hardcoded_bytes(i)
            &&& r.0@[i].token_id == HARDCODED_START + i
            &&& r.0@[i].left_token == hardcoded_left(i)
            &&& r.0@[i].right_token == hardcoded_right(i)
        },
        bytes_table(r.1) == base_vocab_table(TRAINED_START as int),
        pair_table(r.2) == hardcoded_pair_table(HARDCODED_COUNT as int),
{
    let mut merges: Vec<HardcodedMerge> = Vec::new();
    let mut bytes_to_id = bytes_table_new();
    let mut pair_to_id = pair_table_new();

    assert(bytes_table(bytes_to_id) =~= base_vocab_table(0));
    let mut b: u32 = 0;
    while b < 256
        invariant
            b <= 256,
            bytes_table(bytes_to_id) == base_vocab_table(b as int),
        decreases 256 - b,
    {
        let mut v: Vec<u8> = Vec::new();
        v.push(b as u8);
        proof {
            assert(v@ =~= base_token_bytes(b as int));
            lemma_token_of_bytes_inverse(b as int);
            assert(base_vocab_table(b as int).insert(v@, b) =~= base_vocab_table(b as int + 1));
        }
        bytes_table_insert(&mut bytes_to_id, v, b);
        b = b + 1;
    }

    assert(pair_table(pair_to_id) =~= hardcoded_pair_table(0));
    let mut i: u32 = 0;
    while i < HARDCODED_COUNT
        invariant
            i <= HARDCODED_COUNT,
            merges@.len() == i,
            forall|j: int| 0 <= j < i ==> {
                &&& (#[trigger] merges@[j]).bytes@ == hardcoded_bytes(j)
                &&& merges@[j].token_id == HARDCODED_START + j
                &&& merges@[j].left_token == hardcoded_left(j)
                &&& merges@[j].right_token == hardcoded_right(j)
            },
            bytes_table(bytes_to_id) == base_vocab_table(256 + i),
            pair_table(pair_to_id) == hardcoded_pair_table(i as int),
        decreases HARDCODED_COUNT - i,
    {
        let (bytes, left, right) = hardcoded_entry(i);
        let token_id = HARDCODED_START + i;
        let copy = bytes.clone();
        assert(copy@ =~= bytes@);
        merges.push(HardcodedMerge { bytes: copy, token_id, left_token: left, right_token: right });
        proof {
            lemma_token_of_bytes_inverse(256 + i as int);
            assert(base_vocab_table(256 + i).insert(bytes@, token_id) =~= base_vocab_table(256 + i + 1));
            lemma_merge_of_pair_inverse(i as int);
            assert(hardcoded_pair_table(i as int).insert((left, right), token_id) =~= hardcoded_pair_table(i + 1));
        }
        bytes_table_insert(&mut bytes_to_id, bytes, token_id);
        pair_table_insert(&mut pair_to_id, (left, right), token_id);
        i = i + 1;
    }
    (merges, bytes_to_id, pair_to_id)
}

// ---------------------------------------------------------------------------
// Applying merges to bytes
// ---------------------------------------------------------------------------

/// One left-to-right pass: every adjacent pair found in `table` is replaced
/// by its merged token, and a replaced pair is not examined again.
pub open spec fn merge_pass(tokens: Seq<u32>, table: Map<(u32, u32), u32>) -> Seq<u32>
    decreases tokens.len(),
{
    if tokens.len() < 2 {
        tokens
    } else if table.contains_key((tokens[0], tokens[1])) {
        seq![table[(tokens[0], tokens[1])]] + merge_pass(tokens.skip(2), table)
    } else {
        seq![tokens[0]] + merge_pass(tokens.skip(1), table)
    }
}

/// Passes repeated until one replaces nothing.
pub open spec fn merge_to_fixpoint(tokens: Seq<u32>, table: Map<(u32, u32), u32>) -> Seq<u32>
    decreases tokens.len(),
{
    if merge_pass(tokens, table).len() < tokens.len() {
        merge_to_fixpoint(merge_pass(tokens, table), table)
    } else {
        tokens
    }
}

/// Raw bytes as token IDs.
pub open spec fn bytes_as_tokens(bytes: Seq<u8>, byte_to_token: Seq<u32>) -> Seq<u32> {
    bytes.map_values(|b: u8| byte_to_token[b as int])
}

/// A pass never lengthens, and one that does not shorten changes nothing.
pub proof fn lemma_merge_pass_len(tokens: Seq<u32>, table: Map<(u32, u32), u32>)
    ensures
        merge_pass(tokens, table).len() <= tokens.len(),
        merge_pass(tokens, table).len() == tokens.len() ==> merge_pass(tokens, table) == tokens,
    decreases tokens.len(),
{
    if tokens.len() >= 2 {
        if table.contains_key((tokens[0], tokens[1])) {
            lemma_merge_pass_len(tokens.skip(2), table);
        } else {
            lemma_merge_pass_len(tokens.skip(1), table);
            if merge_pass(tokens, table).len() == tokens.len() {
                assert(tokens =~= seq![tokens[0]] + tokens.skip(1));
            }
        }
    }
}

/// A pass that shortens nothing found no pair of the table.
proof fn lemma_full_pass_no_pairs(tokens: Seq<u32>, table: Map<(u32, u32), u32>)
    requires
        merge_pass(tokens, table).len() == tokens.len(),
    ensures
        forall|i: int| 0 <= i < tokens.len() - 1 ==> !table.contains_key((#[trigger] tokens[i], tokens[i + 1])),
    decreases tokens.len(),
{
    if tokens.len() >= 2 {
        if table.contains_key((tokens[0], tokens[1])) {
            lemma_merge_pass_len(tokens.skip(2), table);
        } else {
            lemma_full_pass_no_pairs(tokens.skip(1), table);
            assert forall|i: int| 0 <= i < tokens.len() - 1 implies !table.contains_key((#[trigger] tokens[i], tokens[i + 1])) by {
                if i > 0 {
                    assert(tokens[i] == tokens.skip(1)[i - 1]);
                    assert(tokens[i + 1] == tokens.skip(1)[i]);
                }
            }
        }
    }
}

/// Law: merging runs to the end: no two adjacent tokens of the result form
/// a pair of the table.
pub proof fn law_fixpoint_leaves_no_pair(tokens: Seq<u32>, table: Map<(u32, u32), u32>)
    ensures
        forall|i: int| 0 <= i < merge_to_fixpoint(tokens, table).len() - 1 ==> !table.contains_key(
            (#[trigger] merge_to_fixpoint(tokens, table)[i], merge_to_fixpoint(tokens, table)[i + 1]),
        ),
    decreases tokens.len(),
{
    lemma_merge_pass_len(tokens, table);
    if merge_pass(tokens, table).len() < tokens.len() {
        law_fixpoint_leaves_no_pair(merge_pass(tokens, table), table);
        assert(merge_to_fixpoint(tokens, table) == merge_to_fixpoint(merge_pass(tokens, table), table));
    } else {
        lemma_full_pass_no_pairs(tokens, table);
        assert(merge_to_fixpoint(tokens, table) == tokens);
    }
}

/// Apply hardcoded merges to a byte sequence: each byte becomes its token
/// through `byte_to_token`, then merge passes with `pair_to_id` are repeated
/// until nothing changes.
pub fn apply_hardcoded_merges(
    bytes: &[u8],
    pair_to_id: &AHashMap<(u32, u32), u32>,
    byte_to_token: &[u32; 256],
) -> (result: Vec<u32>)
    ensures
        result@ == merge_to_fixpoint(bytes_as_tokens(bytes@, byte_to_token@), pair_table(*pair_to_id)),
        forall|i: int| 0 <= i < result@.len() - 1 ==> !pair_table(*pair_to_id).contains_key(
            (#[trigger] result@[i], result@[i + 1]),
        ),
{
    let ghost table = pair_table(*pair_to_id);
    proof {
        law_fixpoint_leaves_no_pair(bytes_as_tokens(bytes@, byte_to_token@), table);
    }
    if bytes.len() == 0 {
        assert(bytes_as_tokens(bytes@, byte_to_token@) =~= Seq::<u32>::empty());
        return Vec::new();
    }
    let mut tokens: Vec<u32> = Vec::new();
    let mut k: usize = 0;
    while k < bytes.len()
        invariant
            k <= bytes@.len(),
            tokens@ == bytes_as_tokens(bytes@.take(k as int), byte_to_token@),
        decreases bytes@.len() - k,
    {
        tokens.push(byte_to_token[bytes[k] as usize]);
        k = k + 1;
        assert(tokens@ =~= bytes_as_tokens(bytes@.take(k as int), byte_to_token@));
    }
    assert(bytes@.take(bytes@.len() as int) =~= bytes@);
    let ghost start = tokens@;

    let mut changed = true;
    while changed
        invariant
            table == pair_table(*pair_to_id),
            merge_to_fixpoint(tokens@, table) == merge_to_fixpoint(start, table),
            !changed ==> merge_to_fixpoint(tokens@, table) == tokens@,
        decreases tokens@.len() + (if changed { 1int } else { 0int }),
    {
        changed = false;
        let mut new_tokens: Vec<u32> = Vec::new();
        let mut i: usize = 0;
        proof {
            assert(tokens@.skip(0) =~= tokens@);
            assert(new_tokens@ + merge_pass(tokens@.skip(0), table) =~= merge_pass(tokens@, table));
        }
        while i < tokens.len()
            invariant
                table == pair_table(*pair_to_id),
                i <= tokens@.len(),
                merge_pass(tokens@, table) == new_tokens@ + merge_pass(tokens@.skip(i as int), table),
                changed <==> new_tokens@.len() < i,
                new_tokens@.len() <= i,
            decreases tokens@.len() - i,
        {
            let ghost rest = tokens@.skip(i as int);
            if i + 1 < tokens.len() {
                let pair = (tokens[i], tokens[i + 1]);
                match pair_table_get(pair_to_id, pair) {
                    Some(new_id) => {
                        proof {
                            assert(rest[0] == tokens@[i as int] && rest[1] == tokens@[i + 1]);
                            assert(rest.skip(2) =~= tokens@.skip(i + 2));
                            assert(new_tokens@.push(new_id) + merge_pass(tokens@.skip(i + 2), table) =~= new_tokens@ + merge_pass(rest, table));
                        }
                        new_tokens.push(new_id);
                        i = i + 2;
                        changed = true;
                        continue;
                    },
                    None => {},
                }
                proof {
                    assert(rest[0] == tokens@[i as int] && rest[1] == tokens@[i + 1]);
                }
            }
            proof {
                if rest.len() < 2 {
                    assert(rest =~= seq![tokens@[i as int]]);
                    assert(tokens@.skip(i + 1) =~= Seq::<u32>::empty());
                    assert(merge_pass(tokens@.skip(i + 1), table) == Seq::<u32>::empty());
                }
                assert(rest.skip(1) =~= tokens@.skip(i + 1));
                assert(new_tokens@.push(tokens@[i as int]) + merge_pass(tokens@.skip(i + 1), table) =~= new_tokens@ + merge_pass(rest, table));
            }
            new_tokens.push(tokens[i]);
            i = i + 1;
        }
        proof {
            assert(tokens@.skip(tokens@.len() as int) =~= Seq::<u32>::empty());
            assert(new_tokens@ + Seq::<u32>::empty() =~= new_tokens@);
            assert(merge_pass(tokens@, table) == new_tokens@);
            lemma_merge_pass_len(tokens@, table);
        }
        tokens = new_tokens;
    }
    tokens
}

// ---------------------------------------------------------------------------
// Merging never changes the bytes that tokens stand for
// ---------------------------------------------------------------------------

/// The bytes that a token sequence stands for, given each token's bytes.
pub open spec fn decode_tokens(tokens: Seq<u32>, tb: spec_fn(u32) -> Seq<u8>) -> Seq<u8>
    decreases tokens.len(),
{
    if tokens.len() == 0 {
        Seq::empty()
    } else {
        tb(tokens[0]) + decode_tokens(tokens.skip(1), tb)
    }
}

/// Every entry of a pair table merges into a token standing for the two
/// tokens' bytes, concatenated.
pub open spec fn table_consistent(table: Map<(u32, u32), u32>, tb: spec_fn(u32) -> Seq<u8>) -> bool {
    forall|p: (u32, u32)| #[trigger] table.contains_key(p) ==> tb(table[p]) == tb(p.0) + tb(p.1)
}

pub proof fn lemma_merge_pass_decodes(tokens: Seq<u32>, table: Map<(u32, u32), u32>, tb: spec_fn(u32) -> Seq<u8>)
    requires
        table_consistent(table, tb),
    ensures
        decode_tokens(merge_pass(tokens, table), tb) == decode_tokens(tokens, tb),
    decreases tokens.len(),
{
    if tokens.len() >= 2 {
        let p = (tokens[0], tokens[1]);
        assert(tokens.skip(1).skip(1) =~= tokens.skip(2));
        assert(tokens.skip(1)[0] == tokens[1]);
        if table.contains_key(p) {
            lemma_merge_pass_decodes(tokens.skip(2), table, tb);
            let m = merge_pass(tokens, table);
            assert(m.skip(1) =~= merge_pass(tokens.skip(2), table));
            assert(tb(table[p]) == tb(tokens[0]) + tb(tokens[1]));
            assert(decode_tokens(tokens.skip(1), tb) == tb(tokens[1]) + decode_tokens(tokens.skip(2), tb));
            assert(decode_tokens(merge_pass(tokens, table), tb) == tb(table[p]) + decode_tokens(merge_pass(tokens.skip(2), table), tb));
            assert(decode_tokens(tokens, tb) =~= tb(tokens[0]) + (tb(tokens[1]) + decode_tokens(tokens.skip(2), tb)));
        } else {
            lemma_merge_pass_decodes(tokens.skip(1), table, tb);
            let m = merge_pass(tokens, table);
            assert(m.skip(1) =~= merge_pass(tokens.skip(1), table));
        }
    }
}

pub proof fn lemma_fixpoint_decodes(tokens: Seq<u32>, table: Map<(u32, u32), u32>, tb: spec_fn(u32) -> Seq<u8>)
    requires
        table_consistent(table, tb),
    ensures
        decode_tokens(merge_to_fixpoint(tokens, table), tb) == decode_tokens(tokens, tb),
    decreases tokens.len(),
{
    if merge_pass(tokens, table).len() < tokens.len() {
        lemma_merge_pass_decodes(tokens, table, tb);
        lemma_fixpoint_decodes(merge_pass(tokens, table), table, tb);
    }
}

pub proof fn lemma_bytes_as_tokens_decode(bytes: Seq<u8>, byte_to_token: Seq<u32>, tb: spec_fn(u32) -> Seq<u8>)
    requires
        byte_to_token.len() == 256,
        forall|b: int| 0 <= b < 256 ==> tb(#[trigger] byte_to_token[b]) == seq![b as u8],
    ensures
        decode_tokens(bytes_as_tokens(bytes, byte_to_token), tb) == bytes,
    decreases bytes.len(),
{
    if bytes.len() > 0 {
        lemma_bytes_as_tokens_decode(bytes.skip(1), byte_to_token, tb);
        assert(bytes_as_tokens(bytes, byte_to_token).skip(1) =~= bytes_as_tokens(bytes.skip(1), byte_to_token));
        assert(tb(byte_to_token[bytes[0] as int]) == seq![bytes[0]]);
        assert(bytes =~= seq![bytes[0]] + bytes.skip(1));
    }
}

/// Law: applying merges loses no byte. When every byte maps to a token
/// standing for that byte, and every entry of the pair table merges into a
/// token standing for its two halves, the tokens that
/// `apply_hardcoded_merges` returns stand for exactly the input bytes.
pub proof fn law_merging_preserves_bytes(
    bytes: Seq<u8>,
    byte_to_token: Seq<u32>,
    table: Map<(u32, u32), u32>,
    tb: spec_fn(u32) -> Seq<u8>,
)
    requires
        byte_to_token.len() == 256,
        forall|b: int| 0 <= b < 256 ==> tb(#[trigger] byte_to_token[b]) == seq![b as u8],
        table_consistent(table, tb),
    ensures
        decode_tokens(merge_to_fixpoint(bytes_as_tokens(bytes, byte_to_token), table), tb) == bytes,
{
    lemma_bytes_as_tokens_decode(bytes, byte_to_token, tb);
    lemma_fixpoint_decodes(bytes_as_tokens(bytes, byte_to_token), table, tb);
}

/// The bytes of a cold-start base token, for any ID (empty outside the
/// base vocabulary).
pub open spec fn cold_base_bytes(t: u32) -> Seq<u8> {
    if t < 1417 { base_token_bytes(t as int) } else { Seq::empty() }
}

/// Law: the hardcoded pair table is consistent with the bytes of the base
/// vocabulary, and every hardcoded merge joins two lower IDs.
pub proof fn law_hardcoded_table_consistent()
    ensures
        table_consistent(hardcoded_pair_table(1161), |t: u32| cold_base_bytes(t)),
        forall|p: (u32, u32)| #[trigger] hardcoded_pair_table(1161).contains_key(p)
            ==> p.0 < hardcoded_pair_table(1161)[p] && p.1 < hardcoded_pair_table(1161)[p],
{
    let tb = |t: u32| cold_base_bytes(t);
    let table = hardcoded_pair_table(1161);
    assert forall|p: (u32, u32)| #[trigger] table.contains_key(p) implies tb(table[p]) == tb(p.0) + tb(p.1)
        && p.0 < table[p] && p.1 < table[p] by {
        let i = merge_of_pair(p.0 as int, p.1 as int);
        lemma_hardcoded_is_merge(i);
    }
}

/// Law: in the cold-start base vocabulary, every byte is its own token and
/// distinct tokens have distinct bytes.
pub proof fn law_base_vocabulary_distinct(t1: int, t2: int)
    requires
        0 <= t1 < 1417,
        0 <= t2 < 1417,
        t1 != t2,
    ensures
        base_token_bytes(t1) != base_token_bytes(t2),
{
    lemma_token_of_bytes_inverse(t1);
    lemma_token_of_bytes_inverse(t2);
}


/// Law: the hardcoded tables hold exactly the hardcoded vocabulary. Each
/// byte string of a base token is a key under that token's ID, and no
/// other is; each merge is entered under its ID in both tables, joins two
/// lower tokens, and its bytes are theirs joined.
pub proof fn law_hardcoded_merges_in_tables(i: int, b: Seq<u8>)
    requires
        0 <= i < 1161,
    ensures
        base_vocab_table(1417).contains_key(b) <==> exists|t: int| 0 <= t < 1417 && b == #[trigger] base_token_bytes(t),
        base_vocab_table(1417).contains_key(hardcoded_bytes(i)),
        base_vocab_table(1417)[hardcoded_bytes(i)] == 256 + i,
        hardcoded_pair_table(1161).contains_key((hardcoded_left(i) as u32, hardcoded_right(i) as u32)),
        hardcoded_pair_table(1161)[(hardcoded_left(i) as u32, hardcoded_right(i) as u32)] == 256 + i,
        0 <= hardcoded_left(i) < 256 + i,
        0 <= hardcoded_right(i) < 256 + i,
        base_token_bytes(hardcoded_left(i)) + base_token_bytes(hardcoded_right(i)) == hardcoded_bytes(i),
{
    lemma_hardcoded_is_merge(i);
    lemma_token_of_bytes_inverse(256 + i);
    lemma_merge_of_pair_inverse(i);
    assert(base_token_bytes(256 + i) == hardcoded_bytes(i));
    if exists|t: int| 0 <= t < 1417 && b == #[trigger] base_token_bytes(t) {
        let t = choose|t: int| 0 <= t < 1417 && b == #[trigger] base_token_bytes(t);
        lemma_token_of_bytes_inverse(t);
    }
    if base_vocab_table(1417).contains_key(b) {
        assert(b == base_token_bytes(token_of_bytes(b)));
    }
}

/// Law: the byte table of the hardcoded vocabulary holds exactly 1417
/// keys, one per base token, and the pair table exactly 1161, one per
/// hardcoded merge.
pub proof fn law_hardcoded_table_sizes()
    ensures
        base_vocab_table(1417).dom().len() == 1417,
        hardcoded_pair_table(1161).dom().len() == 1161,
{
    let tokens = vstd::set_lib::set_int_range(0, 1417);
    let merges = vstd::set_lib::set_int_range(0, 1161);
    vstd::set_lib::lemma_int_range(0, 1417);
    vstd::set_lib::lemma_int_range(0, 1161);
    let to_bytes = |t: int| base_token_bytes(t);
    let to_pair = |i: int| (hardcoded_left(i) as u32, hardcoded_right(i) as u32);
    assert forall|t1: int, t2: int| tokens.contains(t1) && tokens.contains(t2) && #[trigger] to_bytes(t1)
        == #[trigger] to_bytes(t2) implies t1 == t2 by {
        if t1 != t2 {
            law_base_vocabulary_distinct(t1, t2);
        }
    }
    assert forall|b: Seq<u8>| #[trigger] base_vocab_table(1417).dom().contains(b) <==> tokens.map(to_bytes).contains(b) by {
        law_hardcoded_merges_in_tables(0, b);
        if base_vocab_table(1417).dom().contains(b) {
            let t = choose|t: int| 0 <= t < 1417 && b == #[trigger] base_token_bytes(t);
            assert(tokens.contains(t) && to_bytes(t) == b);
        }
    }
    assert(tokens.map(to_bytes) =~= base_vocab_table(1417).dom());
    vstd::set_lib::lemma_map_size(tokens, base_vocab_table(1417).dom(), to_bytes);
    assert forall|i1: int, i2: int| merges.contains(i1) && merges.contains(i2) && #[trigger] to_pair(i1)
        == #[trigger] to_pair(i2) implies i1 == i2 by {
        law_hardcoded_merges_in_tables(i1, Seq::empty());
        law_hardcoded_merges_in_tables(i2, Seq::empty());
        if i1 != i2 {
            law_base_vocabulary_distinct(256 + i1, 256 + i2);
            lemma_token_of_bytes_inverse(256 + i1);
            lemma_token_of_bytes_inverse(256 + i2);
            assert(base_token_bytes(256 + i1) == hardcoded_bytes(i1));
            assert(base_token_bytes(256 + i2) == hardcoded_bytes(i2));
        }
    }
    assert forall|p: (u32, u32)| #[trigger] hardcoded_pair_table(1161).dom().contains(p) <==> merges.map(to_pair).contains(p) by {
        if hardcoded_pair_table(1161).dom().contains(p) {
            let i = merge_of_pair(p.0 as int, p.1 as int);
            law_hardcoded_merges_in_tables(i, Seq::empty());
            assert(merges.contains(i) && to_pair(i) == p);
        }
        if merges.map(to_pair).contains(p) {
            let i = choose|i: int| merges.contains(i) && to_pair(i) == p;
            law_hardcoded_merges_in_tables(i, Seq::empty());
        }
    }
    assert(merges.map(to_pair) =~= hardcoded_pair_table(1161).dom());
    vstd::set_lib::lemma_map_size(merges, hardcoded_pair_table(1161).dom(), to_pair);
}

/// The characters that bytes stand for, one per byte.
pub open spec fn ascii_text(b: Seq<u8>) -> Seq<char> {
    b.map_values(|x: u8| x as char)
}

/// Law: the twenty operator merges come in this order, merges 1139 to 1158
/// (token IDs 1395 to 1414): == != <= >= += -= *= /= -> => :: // /* */ && ||
/// ++ -- << >>. Each is entered under its ID in the byte table, and the
/// pair of its two bytes under its ID in the pair table.
pub proof fn law_operator_merges()
    ensures
        ascii_text(hardcoded_bytes(1139)) == "=="@,
        ascii_text(hardcoded_bytes(1140)) == "!="@,
        ascii_text(hardcoded_bytes(1141)) == "<="@,
        ascii_text(hardcoded_bytes(1142)) == ">="@,
        ascii_text(hardcoded_bytes(1143)) == "+="@,
        ascii_text(hardcoded_bytes(1144)) == "-="@,
        ascii_text(hardcoded_bytes(1145)) == "*="@,
        ascii_text(hardcoded_bytes(1146)) == "/="@,
        ascii_text(hardcoded_bytes(1147)) == "->"@,
        ascii_text(hardcoded_bytes(1148)) == "=>"@,
        ascii_text(hardcoded_bytes(1149)) == "::"@,
        ascii_text(hardcoded_bytes(1150)) == "//"@,
        ascii_text(hardcoded_bytes(1151)) == "/*"@,
        ascii_text(hardcoded_bytes(1152)) == "*/"@,
        ascii_text(hardcoded_bytes(1153)) == "&&"@,
        ascii_text(hardcoded_bytes(1154)) == "||"@,
        ascii_text(hardcoded_bytes(1155)) == "++"@,
        ascii_text(hardcoded_bytes(1156)) == "--"@,
        ascii_text(hardcoded_bytes(1157)) == "<<"@,
        ascii_text(hardcoded_bytes(1158)) == ">>"@,
        forall|i: int| 1139 <= i < 1159 ==> {
            &&& base_vocab_table(1417)[#[trigger] hardcoded_bytes(i)] == 256 + i
            &&& hardcoded_pair_table(1161)[(hardcoded_bytes(i)[0] as u32, hardcoded_bytes(i)[1] as u32)] == 256 + i
        },
{
    reveal_strlit("==");
    assert(ascii_text(hardcoded_bytes(1139)) =~= "=="@);
    reveal_strlit("!=");
    assert(ascii_text(hardcoded_bytes(1140)) =~= "!="@);
    reveal_strlit("<=");
    assert(ascii_text(hardcoded_bytes(1141)) =~= "<="@);
    reveal_strlit(">=");
    assert(ascii_text(hardcoded_bytes(1142)) =~= ">="@);
    reveal_strlit("+=");
    assert(ascii_text(hardcoded_bytes(1143)) =~= "+="@);
    reveal_strlit("-=");
    assert(ascii_text(hardcoded_bytes(1144)) =~= "-="@);
    reveal_strlit("*=");
    assert(ascii_text(hardcoded_bytes(1145)) =~= "*="@);
    reveal_strlit("/=");
    assert(ascii_text(hardcoded_bytes(1146)) =~= "/="@);
    reveal_strlit("->");
    assert(ascii_text(hardcoded_bytes(1147)) =~= "->"@);
    reveal_strlit("=>");
    assert(ascii_text(hardcoded_bytes(1148)) =~= "=>"@);
    reveal_strlit("::");
    assert(ascii_text(hardcoded_bytes(1149)) =~= "::"@);
    reveal_strlit("//");
    assert(ascii_text(hardcoded_bytes(1150)) =~= "//"@);
    reveal_strlit("/*");
    assert(ascii_text(hardcoded_bytes(1151)) =~= "/*"@);
    reveal_strlit("*/");
    assert(ascii_text(hardcoded_bytes(1152)) =~= "*/"@);
    reveal_strlit("&&");
    assert(ascii_text(hardcoded_bytes(1153)) =~= "&&"@);
    reveal_strlit("||");
    assert(ascii_text(hardcoded_bytes(1154)) =~= "||"@);
    reveal_strlit("++");
    assert(ascii_text(hardcoded_bytes(1155)) =~= "++"@);
    reveal_strlit("--");
    assert(ascii_text(hardcoded_bytes(1156)) =~= "--"@);
    reveal_strlit("<<");
    assert(ascii_text(hardcoded_bytes(1157)) =~= "<<"@);
    reveal_strlit(">>");
    assert(ascii_text(hardcoded_bytes(1158)) =~= ">>"@);
    assert forall|i: int| 1139 <= i < 1159 implies {
        &&& base_vocab_table(1417)[#[trigger] hardcoded_bytes(i)] == 256 + i
        &&& hardcoded_pair_table(1161)[(hardcoded_bytes(i)[0] as u32, hardcoded_bytes(i)[1] as u32)] == 256 + i
    } by {
        law_hardcoded_merges_in_tables(i, Seq::empty());
    }
}

} // verus!
