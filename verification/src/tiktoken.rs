//! The .tiktoken line format: `<base64 of the token's bytes> <rank>`, one
//! token per line.
use vstd::prelude::*;
use base64::engine::general_purpose::STANDARD;
use base64::{DecodeError, Engine};
use crate::trainer::LoadedToken;

verus! {

#[verifier::external_type_specification]
#[verifier::external_body]
pub struct ExDecodeError(DecodeError);

// ---------------------------------------------------------------------------
// Base64 (standard alphabet, padded)
// ---------------------------------------------------------------------------

/// The character of the standard base64 alphabet for the six-bit value
/// `v`: `A`-`Z`, `a`-`z`, `0`-`9`, `+`, `/`.
pub open spec fn base64_char(v: int) -> char {
    if v < 26 {
        (65 + v) as char
    } else if v < 52 {
        (97 + v - 26) as char
    } else if v < 62 {
        (48 + v - 52) as char
    } else if v == 62 {
        '+'
    } else {
        '/'
    }
}

/// The padded standard base64 encoding: each group of three bytes as four
/// characters of six bits each, high bits first; a last group of one or
/// two bytes is filled out with zero bits and padded with `=` to four
/// characters.
pub open spec fn base64_encoding(bytes: Seq<u8>) -> Seq<char>
    decreases bytes.len(),
{
    if bytes.len() == 0 {
        Seq::empty()
    } else if bytes.len() == 1 {
        let a = bytes[0] as int;
        seq![base64_char(a / 4), base64_char((a % 4) * 16), '=', '=']
    } else if bytes.len() == 2 {
        let a = bytes[0] as int;
        let b = bytes[1] as int;
        seq![base64_char(a / 4), base64_char((a % 4) * 16 + b / 16), base64_char((b % 16) * 4), '=']
    } else {
        let a = bytes[0] as int;
        let b = bytes[1] as int;
        let c = bytes[2] as int;
        seq![
            base64_char(a / 4),
            base64_char((a % 4) * 16 + b / 16),
            base64_char((b % 16) * 4 + c / 64),
            base64_char(c % 64),
        ] + base64_encoding(bytes.skip(3))
    }
}

/// Decoding padded standard base64 text: the bytes whose encoding it is, or
/// `None` when it is the encoding of no bytes.
pub open spec fn base64_decoding(input: Seq<char>) -> Option<Seq<u8>> {
    if exists|b: Seq<u8>| #[trigger] base64_encoding(b) == input {
        Some(choose|b: Seq<u8>| #[trigger] base64_encoding(b) == input)
    } else {
        None
    }
}

/// A character of the standard base64 alphabet, or the padding `=`.
pub open spec fn is_base64_char(c: char) -> bool {
    ('A' <= c && c <= 'Z') || ('a' <= c && c <= 'z') || ('0' <= c && c <= '9') || c == '+' || c == '/'
        || c == '='
}

/// The six-bit value of an alphabet character.
spec fn base64_value(c: char) -> int {
    if 'A' <= c && c <= 'Z' {
        c as int - 65
    } else if 'a' <= c && c <= 'z' {
        c as int - 97 + 26
    } else if '0' <= c && c <= '9' {
        c as int - 48 + 52
    } else if c == '+' {
        62
    } else {
        63
    }
}

proof fn lemma_base64_char(v: int)
    requires
        0 <= v < 64,
    ensures
        base64_value(base64_char(v)) == v,
        base64_char(v) != '=',
        is_base64_char(base64_char(v)),
{
}

/// The four characters of one group give back its three bytes.
proof fn lemma_group_bytes(a: u8, b: u8, c: u8, a2: u8, b2: u8, c2: u8)
    requires
        a / 4 == a2 / 4,
        (a % 4) * 16 + b / 16 == (a2 % 4) * 16 + b2 / 16,
        (b % 16) * 4 + c / 64 == (b2 % 16) * 4 + c2 / 64,
        c % 64 == c2 % 64,
    ensures
        a == a2,
        b == b2,
        c == c2,
{
    assert(a == a2 && b == b2 && c == c2) by (nonlinear_arith)
        requires
            a / 4 == a2 / 4,
            (a % 4) * 16 + b / 16 == (a2 % 4) * 16 + b2 / 16,
            (b % 16) * 4 + c / 64 == (b2 % 16) * 4 + c2 / 64,
            c % 64 == c2 % 64,
    ;
}

/// Two byte strings with the same encoding are equal.
proof fn lemma_base64_injective(x: Seq<u8>, y: Seq<u8>)
    requires
        base64_encoding(x) == base64_encoding(y),
    ensures
        x == y,
    decreases x.len(),
{
    let e = base64_encoding(x);
    if x.len() == 0 || y.len() == 0 {
        if x.len() > 0 || y.len() > 0 {
            assert(base64_encoding(x).len() != base64_encoding(y).len());
        }
        assert(x =~= y);
        return;
    }
    let a: int = x[0] as int;
    let a2: int = y[0] as int;
    lemma_base64_char(a / 4);
    lemma_base64_char(a2 / 4);
    assert(e[0] == base64_char(a / 4));
    assert(e[0] == base64_char(a2 / 4));
    assert(a / 4 == a2 / 4);
    let b: int = if x.len() > 1 { x[1] as int } else { 0 };
    let b2: int = if y.len() > 1 { y[1] as int } else { 0 };
    let c: int = if x.len() > 2 { x[2] as int } else { 0 };
    let c2: int = if y.len() > 2 { y[2] as int } else { 0 };
    let s1 = (a % 4) * 16 + b / 16;
    let t1 = (a2 % 4) * 16 + b2 / 16;
    let s2 = (b % 16) * 4 + c / 64;
    let t2 = (b2 % 16) * 4 + c2 / 64;
    lemma_base64_char(s1);
    lemma_base64_char(t1);
    lemma_base64_char(s2);
    lemma_base64_char(t2);
    lemma_base64_char(c % 64);
    lemma_base64_char(c2 % 64);
    assert(e[1] == base64_char(s1));
    assert(e[1] == base64_char(t1));
    if x.len() == 1 {
        assert(e[3] == '=');
        assert(y.len() < 3);
        assert(e[2] == '=');
        assert(y.len() == 1);
        lemma_group_bytes(x[0], 0, 0, y[0], 0, 0);
        assert(x =~= y);
    } else if x.len() == 2 {
        assert(e[3] == '=');
        assert(y.len() < 3);
        assert(e[2] != '=');
        assert(y.len() == 2);
        assert(e[2] == base64_char(s2));
        assert(e[2] == base64_char(t2));
        lemma_group_bytes(x[0], x[1], 0, y[0], y[1], 0);
        assert(x =~= y);
    } else {
        assert(e[3] != '=');
        assert(y.len() >= 3);
        assert(e[2] == base64_char(s2));
        assert(e[2] == base64_char(t2));
        assert(e[3] == base64_char(c % 64));
        assert(e[3] == base64_char(c2 % 64));
        lemma_group_bytes(x[0], x[1], x[2], y[0], y[1], y[2]);
        assert(base64_encoding(x.skip(3)) =~= e.skip(4));
        assert(base64_encoding(y.skip(3)) =~= e.skip(4));
        lemma_base64_injective(x.skip(3), y.skip(3));
        assert forall|i: int| 0 <= i < x.len() implies x[i] == y[i] by {
            if i >= 3 {
                assert(x[i] == x.skip(3)[i - 3]);
                assert(y[i] == y.skip(3)[i - 3]);
            }
        }
        assert(x =~= y);
    }
}

/// The encoding is base64 text, empty only for no bytes, and decodes back.
pub proof fn lemma_encodes_back(bytes: Seq<u8>)
    ensures
        encodes_back(bytes),
    decreases bytes.len(),
{
    let enc = base64_encoding(bytes);
    let b = choose|b: Seq<u8>| #[trigger] base64_encoding(b) == enc;
    lemma_base64_injective(b, bytes);
    if bytes.len() > 0 {
        let a: int = bytes[0] as int;
        lemma_base64_char(a / 4);
        if bytes.len() == 1 {
            lemma_base64_char((a % 4) * 16);
        } else {
            let b1: int = bytes[1] as int;
            lemma_base64_char((a % 4) * 16 + b1 / 16);
            if bytes.len() == 2 {
                lemma_base64_char((b1 % 16) * 4);
            } else {
                let c: int = bytes[2] as int;
                lemma_base64_char((b1 % 16) * 4 + c / 64);
                lemma_base64_char(c % 64);
                lemma_encodes_back(bytes.skip(3));
                let rest = base64_encoding(bytes.skip(3));
                assert forall|i: int| 0 <= i < enc.len() implies is_base64_char(#[trigger] enc[i]) by {
                    if i >= 4 {
                        assert(enc[i] == rest[i - 4]);
                    }
                }
            }
        }
    }
}

/// `base64::engine::general_purpose::STANDARD.encode`: the padded standard
/// encoding. (The crate computes the output length `4 * ceil(n / 3)` with
/// checked arithmetic, which could only fail for a slice longer than
/// `isize::MAX` bytes; no slice is.)
#[verifier::external_body]
pub(crate) fn base64_encode(bytes: &[u8]) -> (encoded: String)
    ensures
        encoded@ == base64_encoding(bytes@),
{
    STANDARD.encode(bytes)
}

/// `base64::engine::general_purpose::STANDARD.decode` on the text's bytes:
/// the bytes whose padded standard encoding the text is, or the crate's
/// error when it is no such encoding (the engine accepts only canonical
/// padding and no stray trailing bits, so exactly the encodings decode).
#[verifier::external_body]
pub(crate) fn base64_decode(input: &str) -> (decoded: Result<Vec<u8>, DecodeError>)
    ensures
        match decoded {
            Ok(v) => base64_encoding(v@) == input@,
            Err(_) => base64_decoding(input@) is None,
        },
{
    STANDARD.decode(input)
}

// ---------------------------------------------------------------------------
// Strings and characters
// ---------------------------------------------------------------------------

/// `String::from_iter` over chars: the string of exactly these characters.
#[verifier::external_body]
pub(crate) fn string_from_chars(chars: &Vec<char>) -> (s: String)
    ensures
        s@ == chars@,
{
    chars.iter().collect()
}

/// The characters of a string, in order.
pub(crate) fn chars_of(s: &str) -> (chars: Vec<char>)
    ensures
        chars@ == s@,
{
    let mut chars: Vec<char> = Vec::new();
    for c in it: s.chars()
        invariant
            chars@ == it.seq().take(it.index()),
    {
        chars.push(c);
    }
    chars
}

/// Unicode `White_Space`, the property that `char::is_whitespace` tests.
pub open spec fn is_white_space(c: char) -> bool {
    let u = c as u32;
    (0x9 <= u && u <= 0xD) || u == 0x20 || u == 0x85 || u == 0xA0 || u == 0x1680 || (0x2000 <= u && u
        <= 0x200A) || u == 0x2028 || u == 0x2029 || u == 0x202F || u == 0x205F || u == 0x3000
}

fn is_white_space_exec(c: char) -> (r: bool)
    ensures
        r == is_white_space(c),
{
    let u = c as u32;
    (0x9 <= u && u <= 0xD) || u == 0x20 || u == 0x85 || u == 0xA0 || u == 0x1680 || (0x2000 <= u && u
        <= 0x200A) || u == 0x2028 || u == 0x2029 || u == 0x202F || u == 0x205F || u == 0x3000
}

/// The maximal runs of non-white-space characters, in order.
pub open spec fn fields(s: Seq<char>) -> Seq<Seq<char>>
    decreases s.len(),
{
    if s.len() == 0 {
        Seq::empty()
    } else {
        let before = fields(s.drop_last());
        let x = s.last();
        if is_white_space(x) {
            before
        } else if s.len() >= 2 && !is_white_space(s[s.len() - 2]) {
            before.update(before.len() - 1, before.last().push(x))
        } else {
            before.push(seq![x])
        }
    }
}

proof fn lemma_fields_last(s: Seq<char>)
    requires
        s.len() > 0,
        !is_white_space(s.last()),
    ensures
        fields(s).len() > 0,
    decreases s.len(),
{
    if s.len() >= 2 && !is_white_space(s[s.len() - 2]) {
        lemma_fields_last(s.drop_last());
    }
}

/// The white-space-separated fields of a line.
pub fn split_fields(line: &Vec<char>) -> (r: Vec<Vec<char>>)
    ensures
        r@.len() == fields(line@).len(),
        forall|k: int| 0 <= k < r@.len() ==> (#[trigger] r@[k])@ == fields(line@)[k],
{
    let mut out: Vec<Vec<char>> = Vec::new();
    let mut cur: Vec<char> = Vec::new();
    let mut in_field = false;
    let mut i: usize = 0;
    while i < line.len()
        invariant
            i <= line@.len(),
            in_field == (i > 0 && !is_white_space(line@[i - 1])),
            ({
                let f = fields(line@.take(i as int));
                if in_field {
                    &&& f.len() == out@.len() + 1
                    &&& forall|k: int| 0 <= k < out@.len() ==> (#[trigger] out@[k])@ == f[k]
                    &&& cur@ == f.last()
                } else {
                    &&& f.len() == out@.len()
                    &&& forall|k: int| 0 <= k < out@.len() ==> (#[trigger] out@[k])@ == f[k]
                }
            }),
        decreases line@.len() - i,
    {
        let c = line[i];
        let ghost f0 = fields(line@.take(i as int));
        proof {
            assert(line@.take(i + 1).drop_last() =~= line@.take(i as int));
            assert(line@.take(i + 1).last() == c);
        }
        if is_white_space_exec(c) {
            if in_field {
                let done = cur;
                out.push(done);
                cur = Vec::new();
                in_field = false;
            }
        } else {
            if in_field {
                cur.push(c);
                proof {
                    lemma_fields_last(line@.take(i as int));
                }
            } else {
                cur = Vec::new();
                cur.push(c);
                in_field = true;
                proof {
                    assert(cur@ =~= seq![c]);
                }
            }
        }
        i = i + 1;
    }
    if in_field {
        out.push(cur);
    }
    assert(line@.take(line@.len() as int) =~= line@);
    out
}

// ---------------------------------------------------------------------------
// Decimal numbers
// ---------------------------------------------------------------------------

/// A character `0` to `9`.
pub open spec fn is_decimal_digit(c: char) -> bool {
    '0' <= c && c <= '9'
}

/// Value of a string of decimal digits.
pub open spec fn digits_value(ds: Seq<char>) -> nat
    decreases ds.len(),
{
    if ds.len() == 0 {
        0
    } else {
        digits_value(ds.drop_last()) * 10 + ((ds.last() as u32) - 48) as nat
    }
}

/// The digits part of a number: the text after an optional leading `+`.
pub open spec fn unsigned_part(s: Seq<char>) -> Seq<char> {
    if s.len() > 0 && s[0] == '+' { s.skip(1) } else { s }
}

/// Every character is a decimal digit.
pub open spec fn all_digits(ds: Seq<char>) -> bool {
    forall|i: int| 0 <= i < ds.len() ==> is_decimal_digit(#[trigger] ds[i])
}

/// What `str::parse::<u32>` gives: an optional `+` followed by at least one
/// decimal digit, with a value that fits in `u32`.
pub open spec fn parse_u32(s: Seq<char>) -> Option<u32> {
    let ds = unsigned_part(s);
    if ds.len() == 0 || !all_digits(ds) || digits_value(ds) > 0xFFFF_FFFF {
        None
    } else {
        Some(digits_value(ds) as u32)
    }
}

/// Decimal digits of `n`, most significant first, without leading zeros.
pub open spec fn decimal(n: nat) -> Seq<char>
    decreases n,
{
    if n < 10 {
        seq![(48 + n) as char]
    } else {
        decimal(n / 10).push((48 + n % 10) as char)
    }
}

proof fn lemma_decimal_digits(n: nat)
    ensures
        decimal(n).len() > 0,
        forall|i: int| 0 <= i < decimal(n).len() ==> is_decimal_digit(#[trigger] decimal(n)[i]),
        digits_value(decimal(n)) == n,
        decimal(n)[0] != '+',
    decreases n,
{
    if n < 10 {
        let c = (48 + n) as char;
        assert(c as u32 == 48 + n);
        assert(decimal(n).drop_last() =~= Seq::<char>::empty());
        assert(digits_value(Seq::<char>::empty()) == 0);
    } else {
        lemma_decimal_digits(n / 10);
        let d = decimal(n);
        assert(d.drop_last() =~= decimal(n / 10));
        let c = (48 + n % 10) as char;
        assert(d.last() == c);
        assert(c as u32 == 48 + n % 10);
        assert(digits_value(d) == digits_value(decimal(n / 10)) * 10 + n % 10);
        assert(n == (n / 10) * 10 + n % 10);
        assert forall|i: int| 0 <= i < d.len() implies is_decimal_digit(#[trigger] d[i]) by {
            if i < d.len() - 1 {
                assert(d[i] == decimal(n / 10)[i]);
            }
        }
        assert(d[0] == decimal(n / 10)[0]);
    }
}

/// Parsing the decimal rendering of a `u32` gives it back.
pub proof fn lemma_parse_decimal(n: u32)
    ensures
        parse_u32(decimal(n as nat)) == Some(n),
{
    lemma_decimal_digits(n as nat);
}

fn digit_char(d: u32) -> (c: char)
    requires
        d < 10,
    ensures
        c == (48 + d) as char,
        c as u32 == 48 + d,
{
    if d == 0 { '0' }
    else if d == 1 { '1' }
    else if d == 2 { '2' }
    else if d == 3 { '3' }
    else if d == 4 { '4' }
    else if d == 5 { '5' }
    else if d == 6 { '6' }
    else if d == 7 { '7' }
    else if d == 8 { '8' }
    else { '9' }
}

/// The decimal rendering of `n`.
pub fn decimal_chars(n: u32) -> (r: Vec<char>)
    ensures
        r@ == decimal(n as nat),
    decreases n,
{
    if n < 10 {
        let mut v: Vec<char> = Vec::new();
        v.push(digit_char(n));
        assert(v@ =~= decimal(n as nat));
        v
    } else {
        let mut v = decimal_chars(n / 10);
        v.push(digit_char(n % 10));
        v
    }
}

/// Parses a rank with the rules of `str::parse::<u32>`.
pub fn parse_rank(s: &Vec<char>) -> (r: Option<u32>)
    ensures
        r == parse_u32(s@),
{
    let start: usize = if s.len() > 0 && s[0] == '+' { 1 } else { 0 };
    let ghost ds = unsigned_part(s@);
    proof {
        assert(ds =~= s@.skip(start as int));
    }
    if start >= s.len() {
        return None;
    }
    let mut value: u64 = 0;
    let mut i: usize = start;
    while i < s.len()
        invariant
            start <= i <= s@.len(),
            ds == s@.skip(start as int),
            ds == unsigned_part(s@),
            forall|j: int| start <= j < i ==> is_decimal_digit(#[trigger] s@[j]),
            value == digits_value(s@.subrange(start as int, i as int)),
            value <= 0xFFFF_FFFF,
        decreases s@.len() - i,
    {
        let c = s[i];
        if !('0' <= c && c <= '9') {
            proof {
                assert(ds[i - start] == c);
                assert(!is_decimal_digit(ds[i - start]));
            }
            return None;
        }
        let d = (c as u32 - 48) as u64;
        proof {
            assert(s@.subrange(start as int, i + 1).drop_last() =~= s@.subrange(start as int, i as int));
        }
        if value > (0xFFFF_FFFFu64 - d) / 10 {
            proof {
                if all_digits(ds) {
                    lemma_digits_value_prefix(ds, i + 1 - start);
                    assert(ds.take(i + 1 - start) =~= s@.subrange(start as int, i + 1));
                    assert(digits_value(ds) > 0xFFFF_FFFF);
                }
            }
            return None;
        }
        value = value * 10 + d;
        i = i + 1;
    }
    proof {
        assert(s@.subrange(start as int, s@.len() as int) =~= ds);
        assert forall|j: int| 0 <= j < ds.len() implies is_decimal_digit(#[trigger] ds[j]) by {
            assert(ds[j] == s@[j + start]);
        }
        assert(all_digits(ds));
    }
    Some(value as u32)
}

/// A longer string of digits has at least the value of its prefix.
proof fn lemma_digits_value_prefix(ds: Seq<char>, k: int)
    requires
        0 <= k <= ds.len(),
        forall|j: int| 0 <= j < ds.len() ==> is_decimal_digit(#[trigger] ds[j]),
    ensures
        digits_value(ds.take(k)) <= digits_value(ds),
    decreases ds.len() - k,
{
    if k < ds.len() {
        assert(ds.drop_last().take(k) =~= ds.take(k));
        assert forall|j: int| 0 <= j < ds.drop_last().len() implies is_decimal_digit(#[trigger] ds.drop_last()[j]) by {
            assert(ds.drop_last()[j] == ds[j]);
        }
        lemma_digits_value_prefix(ds.drop_last(), k);
        assert(is_decimal_digit(ds[ds.len() - 1]));
    } else {
        assert(ds.take(k) =~= ds);
    }
}


// ---------------------------------------------------------------------------
// Lines of the format
// ---------------------------------------------------------------------------

/// Why a .tiktoken file could not be loaded.
#[derive(Debug, Clone, Copy, PartialEq, Eq, Structural)]
pub enum LoadError {
    /// The first field of a line is not valid base64.
    InvalidBase64,
    /// The second field of a line is not a `u32`.
    InvalidRank,
    /// After sorting by rank, position `expected` holds rank `found`.
    NonContiguousRanks { expected: u32, found: u32 },
}

/// The line for a token: its bytes in base64, a space, its rank in decimal.
pub open spec fn tiktoken_line(bytes: Seq<u8>, rank: nat) -> Seq<char> {
    base64_encoding(bytes) + seq![' '] + decimal(rank)
}

/// The token's bytes and rank, as a pair.
pub open spec fn token_pair(t: LoadedToken) -> (Seq<u8>, u32) {
    (t.bytes@, t.rank)
}

/// The bytes and rank of each token.
pub open spec fn token_pairs(s: Seq<LoadedToken>) -> Seq<(Seq<u8>, u32)> {
    s.map_values(|t: LoadedToken| token_pair(t))
}

/// The text of each line.
pub open spec fn line_texts(lines: Seq<String>) -> Seq<Seq<char>> {
    lines.map_values(|s: String| s@)
}

/// The tokens of a file, in file order, or the error of its first bad line.
/// A line is read when it has exactly two white-space-separated fields (the
/// others, blank lines among them, are skipped): the first is decoded from
/// base64, the second parsed as the rank.
pub open spec fn read_tiktoken(lines: Seq<Seq<char>>) -> Result<Seq<(Seq<u8>, u32)>, LoadError>
    decreases lines.len(),
{
    if lines.len() == 0 {
        Ok(Seq::empty())
    } else {
        match read_tiktoken(lines.drop_last()) {
            Err(e) => Err(e),
            Ok(prev) => {
                let f = fields(lines.last());
                if f.len() != 2 {
                    Ok(prev)
                } else {
                    match base64_decoding(f[0]) {
                        None => Err(LoadError::InvalidBase64),
                        Some(bytes) => match parse_u32(f[1]) {
                            None => Err(LoadError::InvalidRank),
                            Some(rank) => Ok(prev.push((bytes, rank))),
                        },
                    }
                }
            },
        }
    }
}

/// Reads the tokens of a .tiktoken file, line by line, in file order.
pub fn read_entries(lines: &Vec<String>) -> (r: Result<Vec<LoadedToken>, LoadError>)
    ensures
        match r {
            Ok(v) => read_tiktoken(line_texts(lines@)) matches Ok(read) && read == token_pairs(v@)
                && v@.len() <= lines@.len(),
            Err(e) => read_tiktoken(line_texts(lines@)) matches Err(re) && re == e,
        },
{
    let ghost texts = line_texts(lines@);
    let mut out: Vec<LoadedToken> = Vec::new();
    let mut i: usize = 0;
    while i < lines.len()
        invariant
            i <= lines@.len(),
            texts == line_texts(lines@),
            read_tiktoken(texts.take(i as int)) matches Ok(read) && read == token_pairs(out@),
            out@.len() <= i,
        decreases lines@.len() - i,
    {
        let chars = chars_of(lines[i].as_str());
        let parts = split_fields(&chars);
        proof {
            assert(texts.take(i + 1).drop_last() =~= texts.take(i as int));
            assert(texts.take(i + 1).last() == lines@[i as int]@);
        }
        if parts.len() == 2 {
            let field = string_from_chars(&parts[0]);
            let bytes = match base64_decode(field.as_str()) {
                Ok(b) => {
                    proof {
                        lemma_encodes_back(b@);
                    }
                    b
                },
                Err(_) => {
                    proof {
                        lemma_read_prefix_error(texts, i as int + 1, LoadError::InvalidBase64);
                    }
                    return Err(LoadError::InvalidBase64);
                },
            };
            let rank = match parse_rank(&parts[1]) {
                Some(r) => r,
                None => {
                    proof {
                        lemma_read_prefix_error(texts, i as int + 1, LoadError::InvalidRank);
                    }
                    return Err(LoadError::InvalidRank);
                },
            };
            let ghost before = out@;
            out.push(LoadedToken { bytes, rank });
            proof {
                assert(token_pairs(out@) =~= token_pairs(before).push((bytes@, rank)));
            }
        }
        i = i + 1;
    }
    proof {
        assert(texts.take(lines@.len() as int) =~= texts);
    }
    Ok(out)
}

/// Once a prefix of the lines fails, the whole file fails the same way.
proof fn lemma_read_prefix_error(lines: Seq<Seq<char>>, k: int, e: LoadError)
    requires
        0 <= k <= lines.len(),
        read_tiktoken(lines.take(k)) matches Err(re) && re == e,
    ensures
        read_tiktoken(lines) matches Err(re) && re == e,
    decreases lines.len() - k,
{
    if k == lines.len() {
        assert(lines.take(k) =~= lines);
    } else {
        assert(lines.take(k + 1).drop_last() =~= lines.take(k));
        lemma_read_prefix_error(lines, k + 1, e);
    }
}

/// Formats the line of a token.
pub fn format_line(bytes: &[u8], rank: u32) -> (line: String)
    ensures
        line@ == tiktoken_line(bytes@, rank as nat),
        encodes_back(bytes@),
{
    let encoded = base64_encode(bytes);
    proof {
        lemma_encodes_back(bytes@);
    }
    let mut chars = chars_of(encoded.as_str());
    chars.push(' ');
    let mut digits = decimal_chars(rank);
    chars.append(&mut digits);
    string_from_chars(&chars)
}


/// The encoding of these bytes is base64 text, non-empty for non-empty
/// bytes, and decodes back to them.
pub open spec fn encodes_back(bytes: Seq<u8>) -> bool {
    let enc = base64_encoding(bytes);
    &&& base64_decoding(enc) == Some(bytes)
    &&& forall|i: int| 0 <= i < enc.len() ==> is_base64_char(#[trigger] enc[i])
    &&& (bytes.len() > 0 ==> enc.len() > 0)
}

/// No character of the text is white space.
pub open spec fn no_white_space(s: Seq<char>) -> bool {
    forall|i: int| 0 <= i < s.len() ==> !is_white_space(#[trigger] s[i])
}

proof fn lemma_fields_single(a: Seq<char>)
    requires
        a.len() > 0,
        no_white_space(a),
    ensures
        fields(a) == seq![a],
    decreases a.len(),
{
    if a.len() == 1 {
        assert(a.drop_last() =~= Seq::<char>::empty());
        assert(fields(a.drop_last()) =~= Seq::<Seq<char>>::empty());
        assert(!is_white_space(a[0]));
        assert(seq![a.last()] =~= a);
        assert(fields(a) =~= seq![a]);
    } else {
        lemma_fields_single(a.drop_last());
        assert(!is_white_space(a[a.len() - 2]));
        assert(a.drop_last().push(a.last()) =~= a);
        assert(fields(a) =~= seq![a]);
    }
}

proof fn lemma_fields_after_space(q: Seq<char>, b: Seq<char>)
    requires
        q.len() > 0,
        is_white_space(q.last()),
        b.len() > 0,
        no_white_space(b),
    ensures
        fields(q + b) == fields(q).push(b),
    decreases b.len(),
{
    if b.len() == 1 {
        assert((q + b).drop_last() =~= q);
        assert((q + b).last() == b[0]);
        assert(seq![b[0]] =~= b);
    } else {
        let b0 = b.drop_last();
        lemma_fields_after_space(q, b0);
        assert((q + b).drop_last() =~= q + b0);
        assert((q + b)[(q + b).len() - 2] == b0.last());
        assert(b0.push(b.last()) =~= b);
        assert(fields(q + b) =~= fields(q).push(b));
    }
}

/// A token line splits into exactly its base64 text and its rank.
pub proof fn lemma_line_fields(a: Seq<char>, b: Seq<char>)
    requires
        a.len() > 0,
        b.len() > 0,
        no_white_space(a),
        no_white_space(b),
    ensures
        fields(a + seq![' '] + b) == seq![a, b],
{
    let q = a + seq![' '];
    lemma_fields_single(a);
    assert(q.drop_last() =~= a);
    assert(is_white_space(q.last()));
    assert(fields(q) == fields(a));
    lemma_fields_after_space(q, b);
    assert(fields(q + b) =~= seq![a, b]);
}

proof fn lemma_base64_text_no_space(enc: Seq<char>)
    requires
        forall|i: int| 0 <= i < enc.len() ==> is_base64_char(#[trigger] enc[i]),
    ensures
        no_white_space(enc),
{
    assert forall|i: int| 0 <= i < enc.len() implies !is_white_space(#[trigger] enc[i]) by {
        assert(is_base64_char(enc[i]));
    }
}

/// Reading the lines written for a list of tokens, each line holding the
/// token's position as its rank, gives the tokens back in order.
pub proof fn lemma_read_written(bytes: Seq<Seq<u8>>)
    requires
        bytes.len() <= 0x1_0000_0000,
        forall|t: int| 0 <= t < bytes.len() ==> (#[trigger] bytes[t]).len() > 0 && encodes_back(bytes[t]),
    ensures
        read_tiktoken(Seq::new(bytes.len(), |t: int| tiktoken_line(bytes[t], t as nat))) matches Ok(read)
            && read == Seq::new(bytes.len(), |t: int| (bytes[t], t as u32)),
    decreases bytes.len(),
{
    let lines = Seq::new(bytes.len(), |t: int| tiktoken_line(bytes[t], t as nat));
    if bytes.len() > 0 {
        let n = bytes.len() - 1;
        let prefix = bytes.drop_last();
        lemma_read_written(prefix);
        assert(lines.drop_last() =~= Seq::new(prefix.len(), |t: int| tiktoken_line(prefix[t], t as nat)));
        let b = bytes[n];
        assert(encodes_back(b));
        let enc = base64_encoding(b);
        lemma_base64_text_no_space(enc);
        lemma_decimal_digits(n as nat);
        let d = decimal(n as nat);
        assert forall|i: int| 0 <= i < d.len() implies !is_white_space(#[trigger] d[i]) by {
            assert(is_decimal_digit(d[i]));
        }
        lemma_line_fields(enc, d);
        assert(lines.last() == enc + seq![' '] + d);
        lemma_parse_decimal(n as u32);
        assert(Seq::new(prefix.len(), |t: int| (prefix[t], t as u32)).push((b, n as u32)) =~= Seq::new(
            bytes.len(),
            |t: int| (bytes[t], t as u32),
        ));
    } else {
        assert(Seq::new(bytes.len(), |t: int| (bytes[t], t as u32)) =~= Seq::<(Seq<u8>, u32)>::empty());
    }
}

} // verus!
