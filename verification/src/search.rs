//! Byte-pattern search over a file, plus parsing of hex queries.

use vstd::prelude::*;

verus! {

// ---------------------------------------------------------------------------
// Hex query parsing
// ---------------------------------------------------------------------------

/// Whether `c` has the Unicode `White_Space` property.
pub open spec fn is_ws(c: char) -> bool {
    ('\u{9}' <= c && c <= '\u{d}') || c == ' ' || c == '\u{85}' || c == '\u{a0}'
        || c == '\u{1680}' || ('\u{2000}' <= c && c <= '\u{200a}') || c == '\u{2028}'
        || c == '\u{2029}' || c == '\u{202f}' || c == '\u{205f}' || c == '\u{3000}'
}

/// `s` without its leading whitespace.
pub open spec fn trim_start(s: Seq<char>) -> Seq<char>
    decreases s.len(),
{
    if s.len() > 0 && is_ws(s[0]) { trim_start(s.drop_first()) } else { s }
}

/// `s` without its trailing whitespace.
pub open spec fn trim_end(s: Seq<char>) -> Seq<char>
    decreases s.len(),
{
    if s.len() > 0 && is_ws(s.last()) { trim_end(s.drop_last()) } else { s }
}

/// `s` with every leading repetition of the two characters `0` and `x` removed.
pub open spec fn strip_zero_x(s: Seq<char>, x: char) -> Seq<char>
    decreases s.len(),
{
    if s.len() >= 2 && s[0] == '0' && s[1] == x { strip_zero_x(s.subrange(2, s.len() as int), x) } else { s }
}

/// `s` with every whitespace character removed.
pub open spec fn remove_ws(s: Seq<char>) -> Seq<char>
    decreases s.len(),
{
    if s.len() == 0 {
        s
    } else if is_ws(s.last()) {
        remove_ws(s.drop_last())
    } else {
        remove_ws(s.drop_last()).push(s.last())
    }
}

/// The hex digits a query is reduced to: trimmed, with leading `0x` / `0X`
/// prefixes removed, and with inner whitespace dropped.
pub open spec fn cleaned_query(q: Seq<char>) -> Seq<char> {
    remove_ws(strip_zero_x(strip_zero_x(trim_end(trim_start(q)), 'x'), 'X'))
}

/// The value of a hexadecimal digit character.
pub open spec fn hex_value(c: char) -> Option<nat> {
    if '0' <= c && c <= '9' {
        Some((c as nat - '0' as nat) as nat)
    } else if 'a' <= c && c <= 'f' {
        Some((c as nat - 'a' as nat + 10) as nat)
    } else if 'A' <= c && c <= 'F' {
        Some((c as nat - 'A' as nat + 10) as nat)
    } else {
        None
    }
}

/// Whether a cleaned query describes bytes: non-empty, an even number of
/// characters, all of them hex digits.
pub open spec fn valid_hex_digits(c: Seq<char>) -> bool {
    &&& c.len() > 0
    &&& c.len() % 2 == 0
    &&& forall|i: int| 0 <= i < c.len() ==> hex_value(#[trigger] c[i]) is Some
}

/// The bytes spelled by pairs of hex digits, high digit first.
pub open spec fn hex_pairs(c: Seq<char>) -> Seq<u8> {
    Seq::new(c.len() / 2, |i: int| (hex_value(c[2 * i]).unwrap() * 16 + hex_value(c[2 * i + 1]).unwrap()) as u8)
}

/// Whether `c` is a whitespace character.
pub fn is_whitespace(c: char) -> (b: bool)
    ensures
        b == is_ws(c),
{
    ('\u{9}' <= c && c <= '\u{d}') || c == ' ' || c == '\u{85}' || c == '\u{a0}'
        || c == '\u{1680}' || ('\u{2000}' <= c && c <= '\u{200a}') || c == '\u{2028}'
        || c == '\u{2029}' || c == '\u{202f}' || c == '\u{205f}' || c == '\u{3000}'
}

/// The value of a hexadecimal digit character.
pub fn hex_digit_value(c: char) -> (r: Option<u8>)
    ensures
        r matches Some(v) ==> hex_value(c) == Some(v as nat),
        r is None ==> hex_value(c) is None,
{
    if '0' <= c && c <= '9' {
        Some(((c as u32) - ('0' as u32)) as u8)
    } else if 'a' <= c && c <= 'f' {
        Some(((c as u32) - ('a' as u32) + 10) as u8)
    } else if 'A' <= c && c <= 'F' {
        Some(((c as u32) - ('A' as u32) + 10) as u8)
    } else {
        None
    }
}

proof fn lemma_trim_start_skip(s: Seq<char>, lo: int)
    requires
        0 <= lo <= s.len(),
        forall|k: int| 0 <= k < lo ==> is_ws(#[trigger] s[k]),
    ensures
        trim_start(s) == trim_start(s.subrange(lo, s.len() as int)),
    decreases lo,
{
    if lo > 0 {
        assert(s.drop_first() =~= s.subrange(1, s.len() as int));
        lemma_trim_start_skip(s.drop_first(), lo - 1);
        assert(s.drop_first().subrange(lo - 1, s.drop_first().len() as int) =~= s.subrange(lo, s.len() as int));
    } else {
        assert(s.subrange(0, s.len() as int) =~= s);
    }
}

proof fn lemma_trim_end_skip(s: Seq<char>, hi: int)
    requires
        0 <= hi <= s.len(),
        forall|k: int| hi <= k < s.len() ==> is_ws(#[trigger] s[k]),
    ensures
        trim_end(s) == trim_end(s.subrange(0, hi)),
    decreases s.len() - hi,
{
    if hi < s.len() {
        lemma_trim_end_skip(s.drop_last(), hi);
        assert(s.drop_last().subrange(0, hi) =~= s.subrange(0, hi));
    } else {
        assert(s.subrange(0, hi) =~= s);
    }
}

proof fn lemma_strip_step(s: Seq<char>, x: char, lo: int, hi: int)
    requires
        0 <= lo,
        lo + 2 <= hi <= s.len(),
        s[lo] == '0',
        s[lo + 1] == x,
    ensures
        strip_zero_x(s.subrange(lo, hi), x) == strip_zero_x(s.subrange(lo + 2, hi), x),
{
    let t = s.subrange(lo, hi);
    assert(t.subrange(2, t.len() as int) =~= s.subrange(lo + 2, hi));
}

/// The characters of a string.
fn str_chars(query: &str) -> (chars: Vec<char>)
    ensures
        chars@ == query@,
{
    let n = query.unicode_len();
    let mut chars: Vec<char> = Vec::new();
    let mut i: usize = 0;
    while i < n
        invariant
            n == query@.len(),
            i <= n,
            chars@ =~= query@.subrange(0, i as int),
        decreases n - i,
    {
        chars.push(query.get_char(i));
        i = i + 1;
    }
    assert(chars@ =~= query@);
    chars
}

/// The bounds of `chars` without leading and trailing whitespace.
fn trim_bounds(chars: &Vec<char>) -> (r: (usize, usize))
    ensures
        r.0 <= r.1 <= chars.len(),
        chars@.subrange(r.0 as int, r.1 as int) == trim_end(trim_start(chars@)),
{
    let ghost q = chars@;
    let n = chars.len();
    let mut lo: usize = 0;
    while lo < n && is_whitespace(chars[lo])
        invariant
            lo <= n,
            n == q.len(),
            chars@ == q,
            forall|k: int| 0 <= k < lo ==> is_ws(#[trigger] q[k]),
        decreases n - lo,
    {
        lo = lo + 1;
    }
    proof {
        lemma_trim_start_skip(q, lo as int);
        if lo < n {
            assert(trim_start(q.subrange(lo as int, n as int)) == q.subrange(lo as int, n as int));
        } else {
            assert(q.subrange(lo as int, n as int) =~= Seq::<char>::empty());
        }
    }
    let mut hi: usize = n;
    while hi > lo && is_whitespace(chars[hi - 1])
        invariant
            lo <= hi <= n,
            n == q.len(),
            chars@ == q,
            forall|k: int| hi <= k < n ==> is_ws(#[trigger] q[k]),
        decreases hi,
    {
        hi = hi - 1;
    }
    proof {
        let t = q.subrange(lo as int, n as int);
        let trimmed = q.subrange(lo as int, hi as int);
        lemma_trim_end_skip(t, hi - lo);
        assert(t.subrange(0, hi - lo) =~= trimmed);
        if hi > lo {
            assert(trimmed.last() == q[hi - 1]);
        }
        assert(trim_end(trimmed) == trimmed);
    }
    (lo, hi)
}

/// The start of `chars[lo..hi]` once every leading `0x` (for the given `x`) is removed.
fn strip_prefix_bound(chars: &Vec<char>, lo: usize, hi: usize, x: char) -> (r: usize)
    requires
        lo <= hi <= chars.len(),
    ensures
        lo <= r <= hi,
        chars@.subrange(r as int, hi as int) == strip_zero_x(chars@.subrange(lo as int, hi as int), x),
{
    let ghost q = chars@;
    let mut cur = lo;
    while hi - cur >= 2 && chars[cur] == '0' && chars[cur + 1] == x
        invariant
            lo <= cur <= hi <= q.len(),
            chars@ == q,
            strip_zero_x(q.subrange(lo as int, hi as int), x) == strip_zero_x(q.subrange(cur as int, hi as int), x),
        decreases hi - cur,
    {
        proof { lemma_strip_step(q, x, cur as int, hi as int); }
        cur = cur + 2;
    }
    proof {
        let t = q.subrange(cur as int, hi as int);
        if t.len() >= 2 {
            assert(t[0] == q[cur as int] && t[1] == q[cur + 1]);
        }
    }
    cur
}

/// The characters of `chars[lo..hi]` that are not whitespace.
fn without_whitespace(chars: &Vec<char>, lo: usize, hi: usize) -> (r: Vec<char>)
    requires
        lo <= hi <= chars.len(),
    ensures
        r@ == remove_ws(chars@.subrange(lo as int, hi as int)),
{
    let ghost q = chars@;
    let mut cleaned: Vec<char> = Vec::new();
    let mut k: usize = lo;
    while k < hi
        invariant
            lo <= k <= hi <= q.len(),
            chars@ == q,
            cleaned@ == remove_ws(q.subrange(lo as int, k as int)),
        decreases hi - k,
    {
        let c = chars[k];
        proof {
            let next = q.subrange(lo as int, k + 1);
            assert(next.drop_last() =~= q.subrange(lo as int, k as int));
            assert(next.last() == c);
        }
        if !is_whitespace(c) {
            cleaned.push(c);
        }
        k = k + 1;
    }
    cleaned
}

/// The bytes spelled by pairs of hex digits, when every character is one.
fn decode_hex_pairs(c: &Vec<char>) -> (r: Option<Vec<u8>>)
    requires
        c.len() % 2 == 0,
    ensures
        r is Some <==> forall|i: int| 0 <= i < c.len() ==> hex_value(#[trigger] c@[i]) is Some,
        r matches Some(v) ==> v@ == hex_pairs(c@),
{
    let m = c.len();
    let mut out: Vec<u8> = Vec::new();
    let mut j: usize = 0;
    while j < m / 2
        invariant
            m == c.len(),
            m % 2 == 0,
            j <= m / 2,
            out@ =~= hex_pairs(c@).subrange(0, j as int),
            forall|t: int| 0 <= t < 2 * j ==> hex_value(#[trigger] c@[t]) is Some,
        decreases m / 2 - j,
    {
        let hi_d = hex_digit_value(c[2 * j]);
        let lo_d = hex_digit_value(c[2 * j + 1]);
        match (hi_d, lo_d) {
            (Some(h), Some(l)) => {
                let v: u8 = ((h as u32) * 16 + (l as u32)) as u8;
                out.push(v);
                assert forall|t: int| 0 <= t < 2 * (j + 1) implies hex_value(#[trigger] c@[t]) is Some by {
                    if t == 2 * j || t == 2 * j + 1 {
                    }
                }
            },
            _ => {
                assert(hex_value(c@[2 * j as int]) is None || hex_value(c@[2 * j + 1]) is None);
                return None;
            },
        }
        j = j + 1;
    }
    assert(out@ =~= hex_pairs(c@));
    Some(out)
}

/// Parse a hex query like `"DE AD BE EF"`, `"deadbeef"`, or `"0xDEAD"` into
/// bytes. Whitespace and a leading `0x` are ignored; an even number of hex
/// digits is required. Returns `None` on invalid input or an empty result.
pub fn parse_hex(query: &str) -> (r: Option<Vec<u8>>)
    ensures
        r is Some <==> valid_hex_digits(cleaned_query(query@)),
        r matches Some(v) ==> v@ == hex_pairs(cleaned_query(query@)),
{
    let chars = str_chars(query);
    let (lo, hi) = trim_bounds(&chars);
    let lo = strip_prefix_bound(&chars, lo, hi, 'x');
    let lo = strip_prefix_bound(&chars, lo, hi, 'X');
    let cleaned = without_whitespace(&chars, lo, hi);
    assert(cleaned@ == cleaned_query(query@));
    let m = cleaned.len();
    if m == 0 || m % 2 == 1 {
        return None;
    }
    decode_hex_pairs(&cleaned)
}

// ---------------------------------------------------------------------------
// Go-to offsets
// ---------------------------------------------------------------------------

/// The value of a digit in base 10 or 16 (either case).
pub open spec fn radix_digit(c: char, radix: nat) -> Option<nat> {
    if radix == 16 {
        hex_value(c)
    } else if '0' <= c && c <= '9' {
        Some((c as nat - '0' as nat) as nat)
    } else {
        None
    }
}

/// The number a run of digits spells in `radix`, if every character is one
/// of its digits (0 for no digits).
pub open spec fn digits_number(d: Seq<char>, radix: nat) -> Option<nat>
    decreases d.len(),
{
    if d.len() == 0 {
        Some(0)
    } else {
        match (digits_number(d.drop_last(), radix), radix_digit(d.last(), radix)) {
            (Some(v), Some(x)) => Some(v * radix + x),
            _ => None,
        }
    }
}

/// The unsigned number text spells in `radix`, as `usize::from_str_radix`
/// reads it: an optional `+`, then at least one digit, and no larger than
/// `usize::MAX`.
pub open spec fn unsigned_in_radix(t: Seq<char>, radix: nat) -> Option<usize> {
    let d = if t.len() > 0 && t[0] == '+' { t.drop_first() } else { t };
    if d.len() == 0 {
        None
    } else {
        match digits_number(d, radix) {
            Some(v) => if v <= usize::MAX { Some(v as usize) } else { None },
            None => None,
        }
    }
}

/// The offset a go-to query names: trimmed, hexadecimal after a `0x` or
/// `0X` prefix, decimal otherwise.
pub open spec fn goto_offset(q: Seq<char>) -> Option<usize> {
    let t = trim_end(trim_start(q));
    if t.len() >= 2 && t[0] == '0' && (t[1] == 'x' || t[1] == 'X') {
        unsigned_in_radix(t.subrange(2, t.len() as int), 16)
    } else {
        unsigned_in_radix(t, 10)
    }
}

/// The number `chars[lo..hi]` spells in `radix` (10 or 16), as
/// `usize::from_str_radix` reads it.
fn number_in_radix(chars: &Vec<char>, lo: usize, hi: usize, radix: usize) -> (r: Option<usize>)
    requires
        lo <= hi <= chars.len(),
        radix == 10 || radix == 16,
    ensures
        r == unsigned_in_radix(chars@.subrange(lo as int, hi as int), radix as nat),
{
    let ghost t = chars@.subrange(lo as int, hi as int);
    let mut start = lo;
    if lo < hi && chars[lo] == '+' {
        start = lo + 1;
    }
    let ghost d = chars@.subrange(start as int, hi as int);
    proof {
        if lo < hi && chars@[lo as int] == '+' {
            assert(t.drop_first() =~= d);
        } else {
            assert(t =~= d);
        }
    }
    if start == hi {
        return None;
    }
    let mut acc: usize = 0;
    let mut valid = true;
    let mut overflowed = false;
    let mut k = start;
    while k < hi
        invariant
            start <= k <= hi <= chars.len(),
            radix == 10 || radix == 16,
            d == chars@.subrange(start as int, hi as int),
            valid <==> digits_number(chars@.subrange(start as int, k as int), radix as nat) is Some,
            valid && !overflowed ==> digits_number(chars@.subrange(start as int, k as int), radix as nat) == Some(acc as nat),
            valid && overflowed ==> digits_number(chars@.subrange(start as int, k as int), radix as nat)->0 > usize::MAX,
        decreases hi - k,
    {
        let ghost prefix = chars@.subrange(start as int, k as int);
        let ghost next = chars@.subrange(start as int, k + 1);
        proof {
            assert(next.drop_last() =~= prefix);
            assert(next.last() == chars@[k as int]);
        }
        let c = chars[k];
        let digit: Option<u8> = if radix == 16 {
            hex_digit_value(c)
        } else if '0' <= c && c <= '9' {
            Some(((c as u32) - ('0' as u32)) as u8)
        } else {
            None
        };
        match digit {
            None => {
                valid = false;
            },
            Some(x) => {
                if valid && !overflowed {
                    match acc.checked_mul(radix) {
                        Some(m) => match m.checked_add(x as usize) {
                            Some(v) => {
                                acc = v;
                            },
                            None => {
                                overflowed = true;
                            },
                        },
                        None => {
                            overflowed = true;
                            assert(acc * radix + x > usize::MAX);
                        },
                    }
                }
            },
        }
        k = k + 1;
    }
    proof {
        assert(chars@.subrange(start as int, hi as int) =~= d);
    }
    if valid && !overflowed {
        Some(acc)
    } else {
        None
    }
}

/// Parse a go-to query: a hexadecimal offset after `0x` or `0X`, else a
/// decimal one, surrounding whitespace ignored. `None` for anything else,
/// or an offset beyond `usize`.
pub fn parse_offset(query: &str) -> (r: Option<usize>)
    ensures
        r == goto_offset(query@),
{
    let chars = str_chars(query);
    let (lo, hi) = trim_bounds(&chars);
    let ghost t = chars@.subrange(lo as int, hi as int);
    if hi - lo >= 2 && chars[lo] == '0' && (chars[lo + 1] == 'x' || chars[lo + 1] == 'X') {
        proof {
            assert(t.subrange(2, t.len() as int) =~= chars@.subrange(lo + 2, hi as int));
        }
        number_in_radix(&chars, lo + 2, hi, 16)
    } else {
        number_in_radix(&chars, lo, hi, 10)
    }
}

// ---------------------------------------------------------------------------
// Pattern search
// ---------------------------------------------------------------------------

/// Whether `needle` occurs in `haystack` starting at offset `s`.
pub open spec fn matches_at(haystack: Seq<u8>, needle: Seq<u8>, s: int) -> bool {
    &&& 0 <= s
    &&& s + needle.len() <= haystack.len()
    &&& haystack.subrange(s, s + needle.len()) == needle
}

/// The match offsets below `k`, in increasing order.
pub open spec fn matches_below(haystack: Seq<u8>, needle: Seq<u8>, k: nat) -> Seq<usize>
    decreases k,
{
    if k == 0 {
        Seq::empty()
    } else if matches_at(haystack, needle, k - 1) {
        matches_below(haystack, needle, (k - 1) as nat).push((k - 1) as usize)
    } else {
        matches_below(haystack, needle, (k - 1) as nat)
    }
}

/// Every offset where a non-empty `needle` occurs in `haystack`, in increasing order.
pub open spec fn all_matches(haystack: Seq<u8>, needle: Seq<u8>) -> Seq<usize> {
    if needle.len() == 0 || needle.len() > haystack.len() {
        Seq::empty()
    } else {
        matches_below(haystack, needle, (haystack.len() - needle.len() + 1) as nat)
    }
}

/// The first match offset in `[lo, hi)`.
pub open spec fn first_match_in(haystack: Seq<u8>, needle: Seq<u8>, lo: int, hi: int) -> Option<usize>
    decreases hi - lo,
{
    if lo >= hi {
        None
    } else if matches_at(haystack, needle, lo) {
        Some(lo as usize)
    } else {
        first_match_in(haystack, needle, lo + 1, hi)
    }
}

/// The first match at or after `from`, wrapping around to the start of the file.
pub open spec fn next_match(haystack: Seq<u8>, needle: Seq<u8>, from: int) -> Option<usize> {
    if needle.len() == 0 || needle.len() > haystack.len() {
        None
    } else {
        let last = haystack.len() - needle.len();
        let start = if from < last + 1 { from } else { last + 1 };
        match first_match_in(haystack, needle, start, last + 1) {
            Some(s) => Some(s),
            None => first_match_in(haystack, needle, 0, start),
        }
    }
}

/// Whether `needle` occurs in `haystack` at offset `s`.
fn occurs_at(haystack: &[u8], needle: &[u8], s: usize) -> (b: bool)
    requires
        s + needle.len() <= haystack.len(),
    ensures
        b == matches_at(haystack@, needle@, s as int),
{
    let n = needle.len();
    let mut k: usize = 0;
    while k < n
        invariant
            n == needle.len(),
            s + n <= haystack.len(),
            k <= n,
            forall|t: int| 0 <= t < k ==> haystack@[s + t] == needle@[t],
        decreases n - k,
    {
        if haystack[s + k] != needle[k] {
            assert(haystack@.subrange(s as int, s + n)[k as int] != needle@[k as int]);
            return false;
        }
        k = k + 1;
    }
    assert(haystack@.subrange(s as int, s + n) =~= needle@);
    true
}

proof fn lemma_matches_below(haystack: Seq<u8>, needle: Seq<u8>, k: nat)
    requires
        k <= usize::MAX + 1,
    ensures
        forall|i: int| 0 <= i < matches_below(haystack, needle, k).len() ==> {
            let s = #[trigger] matches_below(haystack, needle, k)[i];
            &&& s < k
            &&& matches_at(haystack, needle, s as int)
        },
        forall|i: int, j: int| 0 <= i < j < matches_below(haystack, needle, k).len()
            ==> matches_below(haystack, needle, k)[i] < matches_below(haystack, needle, k)[j],
        forall|s: int| 0 <= s < k && matches_at(haystack, needle, s)
            ==> matches_below(haystack, needle, k).contains(s as usize),
    decreases k,
{
    if k > 0 {
        lemma_matches_below(haystack, needle, (k - 1) as nat);
        let prev = matches_below(haystack, needle, (k - 1) as nat);
        if matches_at(haystack, needle, k - 1) {
            let cur = prev.push((k - 1) as usize);
            assert(cur == matches_below(haystack, needle, k));
            assert forall|i: int| 0 <= i < cur.len() implies {
                let s = #[trigger] cur[i];
                &&& s < k
                &&& matches_at(haystack, needle, s as int)
            } by {
                if i < prev.len() {
                    assert(cur[i] == prev[i]);
                }
            }
            assert forall|i: int, j: int| 0 <= i < j < cur.len() implies cur[i] < cur[j] by {
                if j < prev.len() {
                    assert(cur[i] == prev[i] && cur[j] == prev[j]);
                } else {
                    assert(cur[i] == prev[i]);
                    assert(prev[i] < k - 1);
                }
            }
            assert forall|s: int| 0 <= s < k && matches_at(haystack, needle, s) implies cur.contains(s as usize) by {
                if s == k - 1 {
                    assert(cur[prev.len() as int] == s as usize);
                } else {
                    let i = choose|i: int| 0 <= i < prev.len() && prev[i] == s as usize;
                    assert(cur[i] == s as usize);
                }
            }
        }
    }
}

/// All start offsets where `needle` occurs in `haystack` (overlapping matches
/// included). An empty needle matches nothing.
pub fn find_all(haystack: &[u8], needle: &[u8]) -> (hits: Vec<usize>)
    ensures
        hits@ == all_matches(haystack@, needle@),
        forall|i: int| 0 <= i < hits.len() ==> matches_at(haystack@, needle@, #[trigger] hits@[i] as int),
        forall|i: int, j: int| 0 <= i < j < hits.len() ==> hits@[i] < hits@[j],
        forall|s: int| needle.len() > 0 && matches_at(haystack@, needle@, s) ==> hits@.contains(s as usize),
{
    proof {
        if needle.len() > 0 && needle.len() <= haystack.len() {
            lemma_matches_below(haystack@, needle@, (haystack.len() - needle.len() + 1) as nat);
        }
    }
    if needle.len() == 0 || needle.len() > haystack.len() {
        return Vec::new();
    }
    let mut hits: Vec<usize> = Vec::new();
    let last = haystack.len() - needle.len();
    let mut start: usize = 0;
    while start <= last
        invariant
            needle.len() > 0,
            last == haystack.len() - needle.len(),
            start <= last + 1,
            hits@ == matches_below(haystack@, needle@, start as nat),
        decreases last + 1 - start,
    {
        if occurs_at(haystack, needle, start) {
            hits.push(start);
        }
        start = start + 1;
    }
    hits
}

/// The first match in `[lo, hi)`.
fn first_in(haystack: &[u8], needle: &[u8], lo: usize, hi: usize) -> (r: Option<usize>)
    requires
        hi + needle.len() <= haystack.len() + 1,
    ensures
        r == first_match_in(haystack@, needle@, lo as int, hi as int),
{
    let mut s = lo;
    while s < hi
        invariant
            lo <= s || hi <= lo,
            hi + needle.len() <= haystack.len() + 1,
            first_match_in(haystack@, needle@, lo as int, hi as int)
                == first_match_in(haystack@, needle@, s as int, hi as int),
        decreases hi - s,
    {
        if occurs_at(haystack, needle, s) {
            return Some(s);
        }
        s = s + 1;
    }
    None
}

/// The first match at or after `from`, wrapping around to the start if needed.
pub fn find_next(haystack: &[u8], needle: &[u8], from: usize) -> (r: Option<usize>)
    ensures
        r == next_match(haystack@, needle@, from as int),
{
    if needle.len() == 0 || needle.len() > haystack.len() {
        return None;
    }
    let last_start = haystack.len() - needle.len();
    let start = if from < last_start + 1 { from } else { last_start + 1 };
    match first_in(haystack, needle, start, last_start + 1) {
        Some(s) => Some(s),
        None => first_in(haystack, needle, 0, start),
    }
}

proof fn lemma_first_match_in(haystack: Seq<u8>, needle: Seq<u8>, lo: int, hi: int)
    requires
        0 <= lo,
        hi <= usize::MAX + 1,
    ensures
        first_match_in(haystack, needle, lo, hi) matches Some(s) ==> lo <= s < hi && matches_at(haystack, needle, s as int),
        first_match_in(haystack, needle, lo, hi) matches Some(s) ==> forall|t: int| lo <= t < s ==> !matches_at(haystack, needle, t),
        first_match_in(haystack, needle, lo, hi) is None ==> forall|s: int| lo <= s < hi ==> !matches_at(haystack, needle, s),
    decreases hi - lo,
{
    if lo < hi {
        lemma_first_match_in(haystack, needle, lo + 1, hi);
    }
}

/// `find_next` finds a match exactly when `find_all` reports one, and what it
/// finds is the least offset `find_all` reports at or after `from`, or, when
/// there is none, the least offset overall (the search wraps around).
pub proof fn lemma_next_match_is_a_match(haystack: Seq<u8>, needle: Seq<u8>, from: int)
    requires
        0 <= from,
        haystack.len() <= usize::MAX,
    ensures
        next_match(haystack, needle, from) is Some <==> all_matches(haystack, needle).len() > 0,
        next_match(haystack, needle, from) matches Some(s) ==> all_matches(haystack, needle).contains(s),
        next_match(haystack, needle, from) matches Some(s) ==> {
            let m = all_matches(haystack, needle);
            &&& (exists|i: int| 0 <= i < m.len() && m[i] >= from) ==>
                    s >= from && forall|i: int| 0 <= i < m.len() && m[i] >= from ==> s <= #[trigger] m[i]
            &&& (forall|i: int| 0 <= i < m.len() ==> m[i] < from) ==>
                    forall|i: int| 0 <= i < m.len() ==> s <= #[trigger] m[i]
        },
{
    if needle.len() > 0 && needle.len() <= haystack.len() {
        let last = haystack.len() - needle.len();
        let start = if from < last + 1 { from } else { last + 1 };
        lemma_first_match_in(haystack, needle, start, last + 1);
        lemma_first_match_in(haystack, needle, 0, start);
        lemma_matches_below(haystack, needle, (last + 1) as nat);
        let all = all_matches(haystack, needle);
        if all.len() > 0 {
            let s0 = all[0];
            assert(matches_at(haystack, needle, s0 as int));
        }
        if let Some(s) = next_match(haystack, needle, from) {
            assert(matches_at(haystack, needle, s as int));
            assert forall|i: int| 0 <= i < all.len() && all[i] >= start implies s <= #[trigger] all[i] || s < start by {
                assert(matches_at(haystack, needle, all[i] as int));
            }
            if first_match_in(haystack, needle, start, last + 1) is None {
                assert forall|i: int| 0 <= i < all.len() implies s <= #[trigger] all[i] && all[i] < start by {
                    assert(matches_at(haystack, needle, all[i] as int));
                    assert(all[i] <= last);
                }
            }
        }
    }
}

} // verus!
