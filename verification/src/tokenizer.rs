//! Pre-tokenization: splitting text into the pieces that merges never
//! cross, with special tokens cut out first.
use vstd::prelude::*;
use regex::Regex;
use crate::tiktoken::{chars_of, string_from_chars};

verus! {

#[verifier::external_type_specification]
#[verifier::external_body]
pub struct ExRegex(Regex);

#[verifier::external_type_specification]
#[verifier::external_body]
pub struct ExRegexError(regex::Error);

/// The GPT-4 split pattern without its trailing-white-space lookahead, which
/// the `regex` crate does not support; a plain `\s+` stands in for it.
pub const GPT4_PATTERN_FAST: &'static str = "(?i:'s|'t|'re|'ve|'m|'ll|'d)|[^\\r\\n\\p{L}\\p{N}]?\\p{L}+|\\p{N}{1,3}| ?[^\\s\\p{L}\\p{N}]+[\\r\\n]*|\\s*[\\r\\n]+|\\s+";

/// Whether `Regex::new` accepts this pattern.
pub uninterp spec fn regex_accepts(pattern: Seq<char>) -> bool;

/// The bytes of each successive non-overlapping match that `find_iter` of
/// the regex compiled from `pattern` finds in `text`.
pub uninterp spec fn regex_match_bytes(pattern: Seq<char>, text: Seq<char>) -> Seq<Seq<u8>>;

/// The bytes of each byte string.
pub open spec fn byte_strings(v: Seq<Vec<u8>>) -> Seq<Seq<u8>> {
    v.map_values(|b: Vec<u8>| b@)
}

/// The text of each string.
pub open spec fn texts_of(v: Seq<String>) -> Seq<Seq<char>> {
    v.map_values(|s: String| s@)
}

/// A compiled split pattern.
pub struct PreTokenizer {
    regex: Regex,
    pattern: Ghost<Seq<char>>,
}

impl PreTokenizer {
    /// The pattern is one that `Regex::new` accepts: `new` builds a
    /// `PreTokenizer` only from the regex it compiled from the pattern.
    #[verifier::type_invariant]
    spec fn pattern_compiles(self) -> bool {
        regex_accepts(self.pattern@)
    }
}

impl View for PreTokenizer {
    type V = Seq<char>;

    /// The pattern the regex was compiled from.
    closed spec fn view(&self) -> Seq<char> {
        self.pattern@
    }
}

/// The pattern could not be compiled.
#[derive(Debug, Clone, Copy, PartialEq, Eq, Structural)]
pub enum PatternError {
    InvalidPattern,
}

/// `Regex::new`: the compiled regex, or the crate's error when the pattern
/// is not accepted.
#[verifier::external_body]
fn compile_regex(pattern: &str) -> (r: Result<Regex, regex::Error>)
    ensures
        r is Ok <==> regex_accepts(pattern@),
{
    Regex::new(pattern)
}

/// `Regex::find_iter`, each match taken as the bytes of its text. The regex
/// of a `PreTokenizer` is always the one compiled from its pattern.
#[verifier::external_body]
fn find_match_bytes(pt: &PreTokenizer, text: &str) -> (matches: Vec<Vec<u8>>)
    ensures
        byte_strings(matches@) == regex_match_bytes(pt@, text@),
{
    pt.regex.find_iter(text).map(|m| m.as_str().as_bytes().to_vec()).collect()
}

impl PreTokenizer {
    /// Compiles a split pattern.
    pub fn new(pattern: &str) -> (r: Result<PreTokenizer, PatternError>)
        ensures
            r is Ok <==> regex_accepts(pattern@),
            r matches Ok(pt) ==> pt@ == pattern@,
    {
        match compile_regex(pattern) {
            Ok(regex) => Ok(PreTokenizer { regex, pattern: Ghost(pattern@) }),
            Err(_) => Err(PatternError::InvalidPattern),
        }
    }

    /// The GPT-4 split pattern, compiled.
    pub fn gpt4() -> (r: Result<PreTokenizer, PatternError>)
        ensures
            r is Ok <==> regex_accepts(GPT4_PATTERN_FAST@),
            r matches Ok(pt) ==> pt@ == GPT4_PATTERN_FAST@,
    {
        Self::new(GPT4_PATTERN_FAST)
    }
}

/// Pre-tokenize text into regex-matched chunks: the bytes of each match.
pub fn pre_tokenize(pt: &PreTokenizer, text: &str) -> (r: Vec<Vec<u8>>)
    ensures
        byte_strings(r@) == regex_match_bytes(pt@, text@),
{
    find_match_bytes(pt, text)
}

/// Pre-tokenize into a buffer that is reused: its old contents are
/// replaced by the matches.
pub fn pre_tokenize_into(pt: &PreTokenizer, text: &str, output: &mut Vec<Vec<u8>>)
    ensures
        byte_strings(final(output)@) == regex_match_bytes(pt@, text@),
{
    output.clear();
    let matches = find_match_bytes(pt, text);
    let mut i: usize = 0;
    while i < matches.len()
        invariant
            i <= matches@.len(),
            byte_strings(matches@) == regex_match_bytes(pt@, text@),
            byte_strings(output@) == byte_strings(matches@).take(i as int),
        decreases matches@.len() - i,
    {
        let ghost before = output@;
        let copy = matches[i].clone();
        proof {
            assert(copy@ =~= matches@[i as int]@);
        }
        output.push(copy);
        proof {
            assert(byte_strings(output@) =~= byte_strings(before).push(copy@));
            assert(byte_strings(output@) =~= byte_strings(matches@).take(i + 1));
        }
        i = i + 1;
    }
    proof {
        assert(byte_strings(matches@).take(matches@.len() as int) =~= byte_strings(matches@));
    }
}

/// A piece of pre-tokenized text.
#[derive(Debug)]
pub enum PreToken {
    /// The bytes of a regex match.
    Regular(Vec<u8>),
    /// A special token; its bytes are not needed for training.
    Special(()),
}

impl Clone for PreToken {
    fn clone(&self) -> (r: Self)
        ensures
            pre_token_view(r) == pre_token_view(*self),
    {
        match self {
            PreToken::Regular(bytes) => PreToken::Regular(bytes.clone()),
            PreToken::Special(_) => PreToken::Special(()),
        }
    }
}

/// A pre-token as a value: the bytes of a regular one, `None` for a
/// special one.
pub open spec fn pre_token_view(p: PreToken) -> Option<Seq<u8>> {
    match p {
        PreToken::Regular(bytes) => Some(bytes@),
        PreToken::Special(_) => None,
    }
}

/// The pre-tokens as values.
pub open spec fn pre_token_views(ps: Seq<PreToken>) -> Seq<Option<Seq<u8>>> {
    ps.map_values(|p: PreToken| pre_token_view(p))
}

// ---------------------------------------------------------------------------
// Finding special tokens
// ---------------------------------------------------------------------------

/// `needle` occurs in `hay` at position `i`.
pub open spec fn occurs_at(hay: Seq<char>, needle: Seq<char>, i: int) -> bool {
    0 <= i && i + needle.len() <= hay.len() && hay.subrange(i, i + needle.len()) == needle
}

/// The first position at or after `i` where `needle` occurs.
pub open spec fn find_from(hay: Seq<char>, needle: Seq<char>, i: int) -> Option<int>
    decreases hay.len() - i,
{
    if i < 0 || i + needle.len() > hay.len() {
        None
    } else if occurs_at(hay, needle, i) {
        Some(i)
    } else if i >= hay.len() {
        None
    } else {
        find_from(hay, needle, i + 1)
    }
}

/// Among the first `k` special tokens, the earliest occurrence at or after
/// `start`, as (position, index); at equal positions the earlier token in
/// the list wins.
pub open spec fn earliest_special(hay: Seq<char>, start: int, specials: Seq<Seq<char>>, k: int) -> Option<(int, int)>
    decreases k,
{
    if k <= 0 {
        None
    } else {
        let prev = earliest_special(hay, start, specials, k - 1);
        match find_from(hay, specials[k - 1], start) {
            None => prev,
            Some(p) => match prev {
                None => Some((p, k - 1)),
                Some((q, j)) => if p < q {
                    Some((p, k - 1))
                } else {
                    prev
                },
            },
        }
    }
}

/// The text from `start` on, cut at special tokens: each stretch of
/// ordinary text as `Some`, each special token as `None`.
pub open spec fn special_pieces(text: Seq<char>, start: int, specials: Seq<Seq<char>>) -> Seq<Option<Seq<char>>>
    decreases text.len() - start,
{
    if start < 0 || start >= text.len() {
        Seq::empty()
    } else {
        match earliest_special(text, start, specials, specials.len() as int) {
            None => seq![Some(text.subrange(start, text.len() as int))],
            Some((pos, k)) => {
                let next = pos + specials[k].len();
                if next <= start || next > text.len() {
                    Seq::empty()
                } else {
                    let head = if pos == start {
                        seq![None]
                    } else {
                        seq![Some(text.subrange(start, pos)), None]
                    };
                    head + special_pieces(text, next, specials)
                }
            },
        }
    }
}

/// The pre-tokens of the pieces: the matches of each stretch of text, and
/// a special pre-token for each special token.
pub open spec fn piece_tokens(pattern: Seq<char>, pieces: Seq<Option<Seq<char>>>) -> Seq<Option<Seq<u8>>>
    decreases pieces.len(),
{
    if pieces.len() == 0 {
        Seq::empty()
    } else {
        let head = match pieces[0] {
            Some(t) => regex_match_bytes(pattern, t).map_values(|b: Seq<u8>| Some(b)),
            None => seq![None],
        };
        head + piece_tokens(pattern, pieces.drop_first())
    }
}

/// What pre-tokenizing with special tokens gives.
pub open spec fn pre_tokens(pattern: Seq<char>, text: Seq<char>, specials: Seq<Seq<char>>) -> Seq<Option<Seq<u8>>> {
    if specials.len() == 0 {
        regex_match_bytes(pattern, text).map_values(|b: Seq<u8>| Some(b))
    } else {
        piece_tokens(pattern, special_pieces(text, 0, specials))
    }
}

proof fn lemma_piece_tokens_single(pattern: Seq<char>, x: Option<Seq<char>>)
    ensures
        piece_tokens(pattern, seq![x]) == (match x {
            Some(t) => regex_match_bytes(pattern, t).map_values(|b: Seq<u8>| Some(b)),
            None => seq![None],
        }),
{
    assert(seq![x].drop_first() =~= Seq::<Option<Seq<char>>>::empty());
    assert(piece_tokens(pattern, Seq::<Option<Seq<char>>>::empty()) =~= Seq::<Option<Seq<u8>>>::empty());
    assert(seq![x][0] == x);
    let head = match x {
        Some(t) => regex_match_bytes(pattern, t).map_values(|b: Seq<u8>| Some(b)),
        None => seq![None],
    };
    assert(head + Seq::<Option<Seq<u8>>>::empty() =~= head);
}

proof fn lemma_piece_tokens_append(pattern: Seq<char>, a: Seq<Option<Seq<char>>>, b: Seq<Option<Seq<char>>>)
    ensures
        piece_tokens(pattern, a + b) == piece_tokens(pattern, a) + piece_tokens(pattern, b),
    decreases a.len(),
{
    if a.len() > 0 {
        assert((a + b).drop_first() =~= a.drop_first() + b);
        lemma_piece_tokens_append(pattern, a.drop_first(), b);
        assert((a + b)[0] == a[0]);
    } else {
        assert(a + b =~= b);
    }
}

/// The first position at or after `from` where `needle` occurs in `hay`.
fn find_chars(hay: &Vec<char>, needle: &Vec<char>, from: usize) -> (r: Option<usize>)
    requires
        needle@.len() > 0,
    ensures
        r matches Some(p) ==> find_from(hay@, needle@, from as int) == Some(p as int),
        r is None ==> find_from(hay@, needle@, from as int) is None,
{
    let mut i: usize = from;
    while i <= hay.len() && needle.len() <= hay.len() - i
        invariant
            from <= i,
            needle@.len() > 0,
            find_from(hay@, needle@, from as int) == find_from(hay@, needle@, i as int),
        decreases hay@.len() + 1 - i,
    {
        let mut j: usize = 0;
        let mut matched = true;
        while j < needle.len() && matched
            invariant
                i + needle@.len() <= hay@.len(),
                j <= needle@.len(),
                matched ==> forall|m: int| 0 <= m < j ==> hay@[i + m] == needle@[m],
                !matched ==> !occurs_at(hay@, needle@, i as int),
            decreases needle@.len() - j + (if matched { 1int } else { 0int }),
        {
            let n = hay.len();
            assert(i + j < n);
            if hay[i + j] != needle[j] {
                matched = false;
                proof {
                    assert(hay@.subrange(i as int, i + needle@.len())[j as int] != needle@[j as int]);
                }
            } else {
                j = j + 1;
            }
        }
        if matched {
            proof {
                assert(hay@.subrange(i as int, i + needle@.len()) =~= needle@);
            }
            return Some(i);
        }
        i = i + 1;
    }
    None
}

/// The characters of each list.
pub open spec fn char_seqs(v: Seq<Vec<char>>) -> Seq<Seq<char>> {
    v.map_values(|c: Vec<char>| c@)
}

/// The earliest occurrence at or after `start` of any special token.
fn earliest_special_exec(text: &Vec<char>, start: usize, specials: &Vec<Vec<char>>) -> (r: Option<(usize, usize)>)
    requires
        forall|i: int| 0 <= i < specials@.len() ==> (#[trigger] specials@[i])@.len() > 0,
    ensures
        r matches Some((p, k)) ==> earliest_special(text@, start as int, char_seqs(specials@), specials@.len() as int)
            == Some((p as int, k as int)),
        r is None ==> earliest_special(text@, start as int, char_seqs(specials@), specials@.len() as int) is None,
{
    let ghost sv = char_seqs(specials@);
    let mut best: Option<(usize, usize)> = None;
    let mut k: usize = 0;
    while k < specials.len()
        invariant
            k <= specials@.len(),
            sv == char_seqs(specials@),
            forall|i: int| 0 <= i < specials@.len() ==> (#[trigger] specials@[i])@.len() > 0,
            best matches Some((p, j)) ==> earliest_special(text@, start as int, sv, k as int) == Some((p as int, j as int)),
            best is None ==> earliest_special(text@, start as int, sv, k as int) is None,
        decreases specials@.len() - k,
    {
        let found = find_chars(text, &specials[k], start);
        proof {
            assert(sv[k as int] == specials@[k as int]@);
        }
        match found {
            Some(pos) => {
                match best {
                    None => {
                        best = Some((pos, k));
                    },
                    Some((prev_pos, _)) => {
                        if pos < prev_pos {
                            best = Some((pos, k));
                        }
                    },
                }
            },
            None => {},
        }
        k = k + 1;
    }
    best
}

/// Pre-tokenize the characters `text[from..to]`, appending each match as a
/// regular pre-token.
fn push_regular(pt: &PreTokenizer, text: &Vec<char>, from: usize, to: usize, out: &mut Vec<PreToken>)
    requires
        from <= to <= text@.len(),
    ensures
        pre_token_views(final(out)@) == pre_token_views(old(out)@) + regex_match_bytes(pt@, text@.subrange(from as int, to as int))
            .map_values(|b: Seq<u8>| Some(b)),
{
    let mut piece: Vec<char> = Vec::new();
    let mut i: usize = from;
    while i < to
        invariant
            from <= i <= to,
            to <= text@.len(),
            piece@ == text@.subrange(from as int, i as int),
        decreases to - i,
    {
        piece.push(text[i]);
        i = i + 1;
        proof {
            assert(piece@ =~= text@.subrange(from as int, i as int));
        }
    }
    let s = string_from_chars(&piece);
    let matches = pre_tokenize(pt, s.as_str());
    let ghost want = regex_match_bytes(pt@, text@.subrange(from as int, to as int)).map_values(|b: Seq<u8>| Some(b));
    let ghost start = pre_token_views(out@);
    let mut j: usize = 0;
    while j < matches.len()
        invariant
            j <= matches@.len(),
            byte_strings(matches@) == regex_match_bytes(pt@, text@.subrange(from as int, to as int)),
            want == regex_match_bytes(pt@, text@.subrange(from as int, to as int)).map_values(|b: Seq<u8>| Some(b)),
            pre_token_views(out@) == start + want.take(j as int),
        decreases matches@.len() - j,
    {
        let ghost before = out@;
        out.push(PreToken::Regular(matches[j].clone()));
        proof {
            assert(byte_strings(matches@)[j as int] == matches@[j as int]@);
            assert(pre_token_views(out@) =~= pre_token_views(before).push(Some(matches@[j as int]@)));
            assert(want.take(j + 1) =~= want.take(j as int).push(want[j as int]));
        }
        j = j + 1;
    }
    proof {
        assert(want.take(matches@.len() as int) =~= want);
    }
}

/// Pre-tokenize text, keeping special tokens out of the regex splitting:
/// the text is cut at each special token (the earliest occurrence of any
/// of them first), the stretches between are pre-tokenized, and each
/// special token becomes a special pre-token.
pub fn pre_tokenize_with_special_tokens(pt: &PreTokenizer, text: &str, special_tokens: &[String]) -> (r: Vec<PreToken>)
    requires
        forall|i: int| 0 <= i < special_tokens@.len() ==> (#[trigger] special_tokens@[i])@.len() > 0,
    ensures
        pre_token_views(r@) == pre_tokens(pt@, text@, texts_of(special_tokens@)),
{
    if special_tokens.len() == 0 {
        let matches = pre_tokenize(pt, text);
        let mut out: Vec<PreToken> = Vec::new();
        let chars = chars_of(text);
        push_regular(pt, &chars, 0, chars.len(), &mut out);
        proof {
            assert(chars@.subrange(0, chars@.len() as int) =~= text@);
            assert(pre_token_views(Seq::<PreToken>::empty()) =~= Seq::<Option<Seq<u8>>>::empty());
            assert(texts_of(special_tokens@).len() == 0);
        }
        return out;
    }
    let chars = chars_of(text);
    let mut specials: Vec<Vec<char>> = Vec::new();
    let mut s: usize = 0;
    while s < special_tokens.len()
        invariant
            s <= special_tokens@.len(),
            specials@.len() == s,
            forall|i: int| 0 <= i < s ==> (#[trigger] specials@[i])@ == special_tokens@[i]@,
        decreases special_tokens@.len() - s,
    {
        specials.push(chars_of(special_tokens[s].as_str()));
        s = s + 1;
    }
    let ghost sv = char_seqs(specials@);
    proof {
        assert(sv =~= texts_of(special_tokens@));
    }
    let ghost whole = piece_tokens(pt@, special_pieces(chars@, 0, sv));
    let mut result: Vec<PreToken> = Vec::new();
    let mut start: usize = 0;
    while start < chars.len()
        invariant
            chars@ == text@,
            sv == char_seqs(specials@),
            sv == texts_of(special_tokens@),
            sv.len() > 0,
            forall|i: int| 0 <= i < sv.len() ==> (#[trigger] sv[i]).len() > 0,
            start <= chars@.len(),
            whole == piece_tokens(pt@, special_pieces(chars@, 0, sv)),
            pre_token_views(result@) + piece_tokens(pt@, special_pieces(chars@, start as int, sv)) == whole,
        decreases chars@.len() - start,
    {
        let ghost before = pre_token_views(result@);
        let ghost pieces = special_pieces(chars@, start as int, sv);
        proof {
            assert forall|i: int| 0 <= i < specials@.len() implies (#[trigger] specials@[i])@.len() > 0 by {
                assert(sv[i] == specials@[i]@);
            }
        }
        match earliest_special_exec(&chars, start, &specials) {
            Some((pos, k)) => {
                proof {
                    lemma_earliest_bounds(chars@, start as int, sv, sv.len() as int);
                    assert(sv[k as int] == specials@[k as int]@);
                }
                if pos > start {
                    push_regular(pt, &chars, start, pos, &mut result);
                }
                let ghost mid = result@;
                result.push(PreToken::Special(()));
                let next = pos + specials[k].len();
                proof {
                    let rest = special_pieces(chars@, next as int, sv);
                    let head = if pos == start {
                        seq![None::<Seq<char>>]
                    } else {
                        seq![Some(chars@.subrange(start as int, pos as int)), None::<Seq<char>>]
                    };
                    assert(pieces == head + rest);
                    lemma_piece_tokens_append(pt@, head, rest);
                    assert(pre_token_views(result@) =~= pre_token_views(mid).push(None));
                    lemma_piece_tokens_single(pt@, None);
                    if pos == start {
                        assert(piece_tokens(pt@, head) =~= seq![None::<Seq<u8>>]);
                        assert(pre_token_views(mid) == before);
                    } else {
                        let t = chars@.subrange(start as int, pos as int);
                        assert(head =~= seq![Some(t)] + seq![None::<Seq<char>>]);
                        lemma_piece_tokens_single(pt@, Some(t));
                        lemma_piece_tokens_append(pt@, seq![Some(t)], seq![None::<Seq<char>>]);
                        assert(piece_tokens(pt@, head) =~= regex_match_bytes(pt@, t).map_values(|b: Seq<u8>| Some(b))
                            + seq![None::<Seq<u8>>]);
                    }
                    assert(pre_token_views(result@) + piece_tokens(pt@, rest) =~= before + piece_tokens(pt@, pieces));
                }
                start = next;
            },
            None => {
                push_regular(pt, &chars, start, chars.len(), &mut result);
                proof {
                    let t = chars@.subrange(start as int, chars@.len() as int);
                    assert(pieces == seq![Some(t)]);
                    lemma_piece_tokens_single(pt@, Some(t));
                    assert(special_pieces(chars@, chars@.len() as int, sv) =~= Seq::<Option<Seq<char>>>::empty());
                    assert(piece_tokens(pt@, Seq::<Option<Seq<char>>>::empty()) =~= Seq::<Option<Seq<u8>>>::empty());
                    assert(pre_token_views(result@) =~= whole);
                }
                return result;
            },
        }
    }
    proof {
        assert(special_pieces(chars@, start as int, sv) =~= Seq::<Option<Seq<char>>>::empty());
        assert(pre_token_views(result@) =~= whole);
    }
    result
}

/// The earliest special token lies at or after `start` and inside the text.
proof fn lemma_earliest_bounds(hay: Seq<char>, start: int, specials: Seq<Seq<char>>, k: int)
    requires
        0 <= start,
        k <= specials.len(),
    ensures
        earliest_special(hay, start, specials, k) matches Some((p, j)) ==> {
            &&& start <= p
            &&& 0 <= j < k
            &&& p + specials[j].len() <= hay.len()
        },
    decreases k,
{
    if k > 0 {
        lemma_earliest_bounds(hay, start, specials, k - 1);
        lemma_find_from_bounds(hay, specials[k - 1], start);
    }
}

proof fn lemma_find_from_bounds(hay: Seq<char>, needle: Seq<char>, i: int)
    ensures
        find_from(hay, needle, i) matches Some(p) ==> i <= p && occurs_at(hay, needle, p),
    decreases hay.len() - i,
{
    if i >= 0 && i + needle.len() <= hay.len() && !occurs_at(hay, needle, i) && i < hay.len() {
        lemma_find_from_bounds(hay, needle, i + 1);
    }
}


// ---------------------------------------------------------------------------
// Special tokens stay out of the regular text
// ---------------------------------------------------------------------------

/// No special token occurs anywhere in the text.
pub open spec fn free_of_specials(t: Seq<char>, specials: Seq<Seq<char>>) -> bool {
    forall|s: int, q: int| 0 <= s < specials.len() ==> !#[trigger] occurs_at(t, specials[s], q)
}

proof fn lemma_find_from_none(hay: Seq<char>, needle: Seq<char>, i: int)
    requires
        i >= 0,
        find_from(hay, needle, i) is None,
    ensures
        forall|q: int| q >= i ==> !#[trigger] occurs_at(hay, needle, q),
    decreases hay.len() - i,
{
    if i + needle.len() <= hay.len() && !occurs_at(hay, needle, i) && i < hay.len() {
        lemma_find_from_none(hay, needle, i + 1);
    }
}

proof fn lemma_find_from_first(hay: Seq<char>, needle: Seq<char>, i: int, p: int)
    requires
        i >= 0,
        find_from(hay, needle, i) == Some(p),
    ensures
        forall|q: int| i <= q < p ==> !#[trigger] occurs_at(hay, needle, q),
    decreases hay.len() - i,
{
    if i + needle.len() <= hay.len() && !occurs_at(hay, needle, i) && i < hay.len() {
        lemma_find_from_first(hay, needle, i + 1, p);
    }
}

proof fn lemma_earliest_is_first(hay: Seq<char>, start: int, specials: Seq<Seq<char>>, k: int)
    requires
        0 <= start,
        0 <= k <= specials.len(),
    ensures
        earliest_special(hay, start, specials, k) is None ==> forall|s: int|
            0 <= s < k ==> (#[trigger] find_from(hay, specials[s], start)) is None,
        earliest_special(hay, start, specials, k) matches Some((pos, j)) ==> forall|s: int|
            0 <= s < k ==> ((#[trigger] find_from(hay, specials[s], start)) matches Some(p) ==> p >= pos),
    decreases k,
{
    if k > 0 {
        lemma_earliest_is_first(hay, start, specials, k - 1);
    }
}

proof fn lemma_occurs_in_piece(hay: Seq<char>, needle: Seq<char>, a: int, b: int, q: int)
    requires
        0 <= a <= b <= hay.len(),
        occurs_at(hay.subrange(a, b), needle, q),
    ensures
        occurs_at(hay, needle, a + q),
        a + q + needle.len() <= b,
{
    assert(hay.subrange(a + q, a + q + needle.len()) =~= hay.subrange(a, b).subrange(q, q + needle.len()));
}

/// Law: no special token occurs inside any stretch of ordinary text that
/// the special split hands to the regex, so special tokens never enter the
/// merge statistics.
pub proof fn law_special_tokens_stay_out(text: Seq<char>, start: int, specials: Seq<Seq<char>>)
    requires
        0 <= start,
        forall|i: int| 0 <= i < specials.len() ==> (#[trigger] specials[i]).len() > 0,
    ensures
        forall|k: int| 0 <= k < special_pieces(text, start, specials).len()
            && (#[trigger] special_pieces(text, start, specials)[k]) is Some
            ==> free_of_specials(special_pieces(text, start, specials)[k]->0, specials),
    decreases text.len() - start,
{
    let pieces = special_pieces(text, start, specials);
    if start < text.len() {
        lemma_earliest_is_first(text, start, specials, specials.len() as int);
        lemma_earliest_bounds(text, start, specials, specials.len() as int);
        match earliest_special(text, start, specials, specials.len() as int) {
            None => {
                let t = text.subrange(start, text.len() as int);
                assert forall|s: int, q: int| 0 <= s < specials.len() implies !#[trigger] occurs_at(t, specials[s], q) by {
                    lemma_find_from_none(text, specials[s], start);
                    if occurs_at(t, specials[s], q) {
                        lemma_occurs_in_piece(text, specials[s], start, text.len() as int, q);
                        assert(!occurs_at(text, specials[s], start + q));
                    }
                }
                assert(pieces =~= seq![Some(t)]);
            },
            Some((pos, kk)) => {
                let next = pos + specials[kk].len();
                if next > start && next <= text.len() {
                    law_special_tokens_stay_out(text, next, specials);
                    let rest = special_pieces(text, next, specials);
                    let head = if pos == start {
                        seq![None::<Seq<char>>]
                    } else {
                        seq![Some(text.subrange(start, pos)), None::<Seq<char>>]
                    };
                    assert(pieces == head + rest);
                    assert forall|k: int| 0 <= k < pieces.len() && (#[trigger] pieces[k]) is Some
                        implies free_of_specials(pieces[k]->0, specials) by {
                        if k >= head.len() {
                            assert(pieces[k] == rest[k - head.len()]);
                        } else {
                            assert(pos > start && k == 0);
                            let t = text.subrange(start, pos);
                            assert(pieces[k] == Some(t));
                            assert forall|s: int, q: int| 0 <= s < specials.len() implies !#[trigger] occurs_at(t, specials[s], q) by {
                                if occurs_at(t, specials[s], q) {
                                    lemma_occurs_in_piece(text, specials[s], start, pos, q);
                                    match find_from(text, specials[s], start) {
                                        None => {
                                            lemma_find_from_none(text, specials[s], start);
                                        },
                                        Some(p) => {
                                            lemma_find_from_first(text, specials[s], start, p);
                                            assert(p >= pos);
                                        },
                                    }
                                }
                            }
                        }
                    }
                }
            },
        }
    }
}


proof fn lemma_earliest_none(hay: Seq<char>, start: int, specials: Seq<Seq<char>>, k: int)
    requires
        0 <= start,
        0 <= k <= specials.len(),
        forall|s: int| 0 <= s < k ==> (#[trigger] find_from(hay, specials[s], start)) is None,
    ensures
        earliest_special(hay, start, specials, k) is None,
    decreases k,
{
    if k > 0 {
        lemma_earliest_none(hay, start, specials, k - 1);
    }
}

/// Law: text in which no special token occurs is pre-tokenized exactly as
/// without special tokens (for non-empty text; an empty text gives no
/// pre-tokens when special tokens are given, without consulting the regex).
pub proof fn law_no_special_means_plain(pattern: Seq<char>, text: Seq<char>, specials: Seq<Seq<char>>)
    requires
        specials.len() == 0 || text.len() > 0,
        free_of_specials(text, specials),
    ensures
        pre_tokens(pattern, text, specials) == regex_match_bytes(pattern, text).map_values(|b: Seq<u8>| Some(b)),
{
    if specials.len() > 0 {
        assert forall|s: int| 0 <= s < specials.len() implies (#[trigger] find_from(text, specials[s], 0)) is None by {
            lemma_find_from_bounds(text, specials[s], 0);
            if let Some(p) = find_from(text, specials[s], 0) {
                assert(occurs_at(text, specials[s], p));
            }
        }
        lemma_earliest_none(text, 0, specials, specials.len() as int);
        assert(text.subrange(0, text.len() as int) =~= text);
        assert(special_pieces(text, 0, specials) == seq![Some(text)]);
        lemma_piece_tokens_single(pattern, Some(text));
    }
}

/// The number of `None`s in the sequence.
pub open spec fn none_count<A>(s: Seq<Option<A>>) -> nat
    decreases s.len(),
{
    if s.len() == 0 {
        0
    } else {
        (if s[0] is None { 1nat } else { 0nat }) + none_count(s.drop_first())
    }
}

/// The pieces put back together, the `k`-th special piece (`None`) written
/// as `fills[k]`.
pub open spec fn reassemble(pieces: Seq<Option<Seq<char>>>, fills: Seq<Seq<char>>) -> Seq<char>
    decreases pieces.len(),
{
    if pieces.len() == 0 {
        Seq::empty()
    } else {
        match pieces[0] {
            Some(t) => t + reassemble(pieces.drop_first(), fills),
            None => fills[0] + reassemble(pieces.drop_first(), fills.drop_first()),
        }
    }
}

proof fn lemma_none_count_append<A>(a: Seq<Option<A>>, b: Seq<Option<A>>)
    ensures
        none_count(a + b) == none_count(a) + none_count(b),
    decreases a.len(),
{
    if a.len() > 0 {
        assert((a + b).drop_first() =~= a.drop_first() + b);
        lemma_none_count_append(a.drop_first(), b);
    } else {
        assert(a + b =~= b);
    }
}

proof fn lemma_none_count_zero<A>(s: Seq<Option<A>>)
    requires
        forall|i: int| 0 <= i < s.len() ==> (#[trigger] s[i]) is Some,
    ensures
        none_count(s) == 0,
    decreases s.len(),
{
    if s.len() > 0 {
        assert(s[0] is Some);
        assert forall|i: int| 0 <= i < s.drop_first().len() implies (#[trigger] s.drop_first()[i]) is Some by {
            assert(s.drop_first()[i] == s[i + 1]);
        }
        lemma_none_count_zero(s.drop_first());
    }
}

/// Each special piece becomes one special pre-token, and ordinary text only
/// regular ones.
proof fn lemma_piece_tokens_none_count(pattern: Seq<char>, pieces: Seq<Option<Seq<char>>>)
    ensures
        none_count(piece_tokens(pattern, pieces)) == none_count(pieces),
    decreases pieces.len(),
{
    if pieces.len() > 0 {
        let x = pieces[0];
        let rest = pieces.drop_first();
        assert(pieces =~= seq![x] + rest);
        lemma_piece_tokens_append(pattern, seq![x], rest);
        lemma_piece_tokens_single(pattern, x);
        lemma_piece_tokens_none_count(pattern, rest);
        let head = piece_tokens(pattern, seq![x]);
        lemma_none_count_append(head, piece_tokens(pattern, rest));
        match x {
            Some(t) => {
                assert forall|i: int| 0 <= i < head.len() implies (#[trigger] head[i]) is Some by {}
                lemma_none_count_zero(head);
            },
            None => {
                assert(head == seq![None::<Seq<u8>>]);
                assert(head.drop_first() =~= Seq::<Option<Seq<u8>>>::empty());
                assert(none_count(head.drop_first()) == 0);
                assert(none_count(head) == 1);
            },
        }
        assert(piece_tokens(pattern, pieces) == head + piece_tokens(pattern, rest));
        assert(none_count(pieces) == (if x is None { 1nat } else { 0nat }) + none_count(rest));
    }
}

proof fn lemma_earliest_found(hay: Seq<char>, start: int, specials: Seq<Seq<char>>, k: int)
    requires
        0 <= start,
        k <= specials.len(),
    ensures
        earliest_special(hay, start, specials, k) matches Some((p, j)) ==> find_from(hay, specials[j], start) == Some(p),
    decreases k,
{
    if k > 0 {
        lemma_earliest_found(hay, start, specials, k - 1);
    }
}

/// The special split of the text from `start` on: its special pieces are
/// filled by `fills`, one listed special token each, its ordinary pieces
/// are non-empty, and together they are the text.
proof fn lemma_special_split(text: Seq<char>, start: int, specials: Seq<Seq<char>>) -> (fills: Seq<Seq<char>>)
    requires
        0 <= start <= text.len(),
        forall|i: int| 0 <= i < specials.len() ==> (#[trigger] specials[i]).len() > 0,
    ensures
        fills.len() == none_count(special_pieces(text, start, specials)),
        forall|i: int| 0 <= i < fills.len() ==> specials.contains(#[trigger] fills[i]),
        reassemble(special_pieces(text, start, specials), fills) == text.subrange(start, text.len() as int),
        forall|k: int| 0 <= k < special_pieces(text, start, specials).len()
            && (#[trigger] special_pieces(text, start, specials)[k]) is Some
            ==> special_pieces(text, start, specials)[k]->0.len() > 0,
    decreases text.len() - start,
{
    let pieces = special_pieces(text, start, specials);
    if start == text.len() {
        assert(pieces =~= Seq::<Option<Seq<char>>>::empty());
        assert(text.subrange(start, text.len() as int) =~= Seq::<char>::empty());
        return Seq::empty();
    }
    lemma_earliest_bounds(text, start, specials, specials.len() as int);
    lemma_earliest_found(text, start, specials, specials.len() as int);
    match earliest_special(text, start, specials, specials.len() as int) {
        None => {
            let t = text.subrange(start, text.len() as int);
            assert(pieces == seq![Some(t)]);
            assert(pieces.drop_first() =~= Seq::<Option<Seq<char>>>::empty());
            assert(reassemble(pieces.drop_first(), Seq::<Seq<char>>::empty()) == Seq::<char>::empty());
            assert(reassemble(pieces, Seq::<Seq<char>>::empty()) == t + Seq::<char>::empty());
            assert(t + Seq::<char>::empty() =~= t);
            assert(none_count(pieces.drop_first()) == 0);
            Seq::empty()
        },
        Some((pos, k)) => {
            let sk = specials[k];
            let next = pos + sk.len();
            lemma_find_from_bounds(text, sk, start);
            assert(text.subrange(pos, next) == sk);
            let rest = special_pieces(text, next, specials);
            let fr = lemma_special_split(text, next, specials);
            let fills = seq![sk] + fr;
            assert(fills.drop_first() =~= fr);
            assert(fills[0] == sk);
            assert(specials.contains(sk)) by {
                assert(specials[k] == sk);
            }
            assert forall|i: int| 0 <= i < fills.len() implies specials.contains(#[trigger] fills[i]) by {
                if i > 0 {
                    assert(fills[i] == fr[i - 1]);
                }
            }
            if pos == start {
                assert(pieces == seq![None::<Seq<char>>] + rest);
                assert(pieces.drop_first() =~= rest);
                assert(reassemble(pieces, fills) == sk + reassemble(rest, fr));
                assert(text.subrange(start, text.len() as int) =~= sk + text.subrange(next, text.len() as int));
                assert forall|j: int| 0 <= j < pieces.len() && (#[trigger] pieces[j]) is Some implies pieces[j]->0.len() > 0 by {
                    assert(pieces[j] == rest[j - 1]);
                }
            } else {
                let t = text.subrange(start, pos);
                assert(pieces == seq![Some(t), None::<Seq<char>>] + rest);
                let p1 = pieces.drop_first();
                assert(p1 =~= seq![None::<Seq<char>>] + rest);
                assert(p1.drop_first() =~= rest);
                assert(reassemble(p1, fills) == sk + reassemble(rest, fr));
                assert(reassemble(pieces, fills) == t + reassemble(p1, fills));
                assert(text.subrange(start, text.len() as int) =~= t + (sk + text.subrange(next, text.len() as int)));
                assert(none_count(pieces) == none_count(p1));
                assert forall|j: int| 0 <= j < pieces.len() && (#[trigger] pieces[j]) is Some implies pieces[j]->0.len() > 0 by {
                    if j >= 2 {
                        assert(pieces[j] == rest[j - 2]);
                    }
                }
            }
            fills
        },
    }
}

/// Law: cutting special tokens out of text gives exactly one special
/// pre-token for each special token cut out; the stretches of ordinary text
/// between them are non-empty and, put back together with those special
/// tokens in order, are the text.
pub proof fn law_special_tokens_cut_once(pattern: Seq<char>, text: Seq<char>, specials: Seq<Seq<char>>) -> (fills: Seq<Seq<char>>)
    requires
        specials.len() > 0,
        forall|i: int| 0 <= i < specials.len() ==> (#[trigger] specials[i]).len() > 0,
    ensures
        none_count(pre_tokens(pattern, text, specials)) == fills.len(),
        forall|i: int| 0 <= i < fills.len() ==> specials.contains(#[trigger] fills[i]),
        reassemble(special_pieces(text, 0, specials), fills) == text,
        forall|k: int| 0 <= k < special_pieces(text, 0, specials).len()
            && (#[trigger] special_pieces(text, 0, specials)[k]) is Some
            ==> special_pieces(text, 0, specials)[k]->0.len() > 0,
{
    let fills = lemma_special_split(text, 0, specials);
    lemma_piece_tokens_none_count(pattern, special_pieces(text, 0, specials));
    assert(text.subrange(0, text.len() as int) =~= text);
    fills
}

} // verus!
