//! Verified helpers over `&str` values: substring search, prefix and suffix
//! tests, case folding for ASCII letters, and decimal rendering of integers.
//! All specifications are stated over the `Seq<char>` view of a string.

use vstd::prelude::*;
use vstd::string::*;

verus! {

/// The characters of `pat` occur in `s` starting at position `i`.
pub open spec fn matches_at(s: Seq<char>, i: int, pat: Seq<char>) -> bool {
    0 <= i && i + pat.len() <= s.len() && s.subrange(i, i + pat.len()) == pat
}

/// `pat` occurs somewhere in `s`.
pub open spec fn contains_seq(s: Seq<char>, pat: Seq<char>) -> bool {
    exists|i: int| matches_at(s, i, pat)
}

/// Lower-case image of one character; only ASCII letters are folded.
pub open spec fn lower_char(c: char) -> char {
    if 'A' <= c && c <= 'Z' {
        ((c as u8) + 32) as char
    } else {
        c
    }
}

/// Lower-case image of a character sequence.
pub open spec fn lower_seq(s: Seq<char>) -> Seq<char> {
    Seq::new(s.len(), |i: int| lower_char(s[i]))
}

/// Does `pat` occur in `s` at position `i`?
pub fn str_matches_at(s: &str, i: usize, pat: &str) -> (b: bool)
    requires
        i + pat@.len() <= s@.len(),
    ensures
        b == matches_at(s@, i as int, pat@),
{
    let n = pat.unicode_len();
    let sn = s.unicode_len();
    let mut j: usize = 0;
    while j < n
        invariant
            n == pat@.len(),
            sn == s@.len(),
            i + n <= sn,
            0 <= j <= n,
            forall|k: int| 0 <= k < j ==> s@[i + k] == pat@[k],
        decreases n - j,
    {
        if s.get_char(i + j) != pat.get_char(j) {
            assert(s@.subrange(i as int, i + pat@.len()) != pat@) by {
                assert(s@.subrange(i as int, i + pat@.len())[j as int] != pat@[j as int]);
            }
            return false;
        }
        j += 1;
    }
    assert(s@.subrange(i as int, i + pat@.len()) =~= pat@);
    true
}

/// Position of the first occurrence of `pat` in `s`, if any.
pub fn str_find(s: &str, pat: &str) -> (r: Option<usize>)
    ensures
        match r {
            Some(i) => matches_at(s@, i as int, pat@) && forall|j: int|
                0 <= j < i ==> !matches_at(s@, j, pat@),
            None => !contains_seq(s@, pat@),
        },
{
    let n = s.unicode_len();
    let m = pat.unicode_len();
    if m > n {
        assert(forall|i: int| !matches_at(s@, i, pat@));
        return None;
    }
    if m == 0 {
        assert(s@.subrange(0, 0) =~= pat@);
        return Some(0);
    }
    let mut i: usize = 0;
    while i <= n - m
        invariant
            n == s@.len(),
            m == pat@.len(),
            1 <= m <= n,
            0 <= i <= n - m + 1,
            forall|j: int| 0 <= j < i ==> !matches_at(s@, j, pat@),
        decreases n - m + 1 - i,
    {
        if str_matches_at(s, i, pat) {
            return Some(i);
        }
        i += 1;
    }
    assert(forall|j: int| 0 <= j < s@.len() ==> j > n - m ==> !matches_at(s@, j, pat@));
    None
}

/// Does `pat` occur anywhere in `s`?
pub fn str_contains(s: &str, pat: &str) -> (b: bool)
    ensures
        b == contains_seq(s@, pat@),
{
    str_find(s, pat).is_some()
}

/// Does `s` start with `pat`?
pub fn str_starts_with(s: &str, pat: &str) -> (b: bool)
    ensures
        b == (pat@.len() <= s@.len() && s@.subrange(0, pat@.len() as int) == pat@),
{
    if pat.unicode_len() > s.unicode_len() {
        return false;
    }
    str_matches_at(s, 0, pat)
}

/// Does `s` end with `pat`?
pub fn str_ends_with(s: &str, pat: &str) -> (b: bool)
    ensures
        b == (pat@.len() <= s@.len() && s@.subrange(
            s@.len() - pat@.len(),
            s@.len() as int,
        ) == pat@),
{
    let n = s.unicode_len();
    let m = pat.unicode_len();
    if m > n {
        return false;
    }
    str_matches_at(s, n - m, pat)
}

/// Position of the last occurrence of the character `c` in `s`, if any.
pub fn find_last_char(s: &str, c: char) -> (r: Option<usize>)
    ensures
        match r {
            Some(i) => i < s@.len() && s@[i as int] == c && forall|j: int|
                i < j < s@.len() ==> s@[j] != c,
            None => forall|j: int| 0 <= j < s@.len() ==> s@[j] != c,
        },
{
    let n = s.unicode_len();
    let mut i: usize = n;
    while i > 0
        invariant
            n == s@.len(),
            0 <= i <= n,
            forall|j: int| i <= j < s@.len() ==> s@[j] != c,
        decreases i,
    {
        i -= 1;
        if s.get_char(i) == c {
            return Some(i);
        }
    }
    None
}

/// Are the characters of `s` between `from` and `to`, folded to lower case,
/// exactly `pat`?
pub fn range_lower_eq(s: &str, from: usize, to: usize, pat: &str) -> (r: bool)
    requires
        from <= to <= s@.len(),
    ensures
        r == (lower_seq(s@.subrange(from as int, to as int)) == pat@),
{
    let m = pat.unicode_len();
    if to - from != m {
        assert(lower_seq(s@.subrange(from as int, to as int)).len() != pat@.len());
        return false;
    }
    let mut j: usize = 0;
    while j < m
        invariant
            m == pat@.len(),
            from <= to <= s@.len(),
            to - from == m,
            0 <= j <= m,
            forall|k: int| 0 <= k < j ==> lower_char(s@[from + k]) == pat@[k],
        decreases m - j,
    {
        let c = s.get_char(from + j);
        let folded: char = if 'A' <= c && c <= 'Z' {
            ((c as u8) + 32) as char
        } else {
            c
        };
        assert(folded == lower_char(s@[from + j]));
        if folded != pat.get_char(j) {
            assert(lower_seq(s@.subrange(from as int, to as int))[j as int] != pat@[j as int]);
            return false;
        }
        j += 1;
    }
    assert(lower_seq(s@.subrange(from as int, to as int)) =~= pat@);
    true
}

/// First index at or after `i` holding the character `c`, or the length of
/// `s` if none does.
pub open spec fn find_char_from(s: Seq<char>, c: char, i: int) -> int
    decreases s.len() - i,
        when 0 <= i <= s.len()
{
    if i >= s.len() {
        i
    } else if s[i] == c {
        i
    } else {
        find_char_from(s, c, i + 1)
    }
}

/// `find_char_from` stays between its start and the length, stops on `c`,
/// and skips no occurrence.
pub proof fn lemma_find_char_bounds(s: Seq<char>, c: char, i: int)
    requires
        0 <= i <= s.len(),
    ensures
        i <= find_char_from(s, c, i) <= s.len(),
        find_char_from(s, c, i) < s.len() ==> s[find_char_from(s, c, i)] == c,
        forall|j: int| i <= j < find_char_from(s, c, i) ==> s[j] != c,
    decreases s.len() - i,
{
    if i < s.len() && s[i] != c {
        lemma_find_char_bounds(s, c, i + 1);
    }
}

/// An exec search that stopped at `e` found `find_char_from(s, c, i)`.
pub proof fn lemma_find_char_first(s: Seq<char>, c: char, i: int, e: int)
    requires
        0 <= i <= e <= s.len(),
        forall|j: int| i <= j < e ==> s[j] != c,
        e < s.len() ==> s[e] == c,
    ensures
        find_char_from(s, c, i) == e,
    decreases e - i,
{
    if i < e {
        lemma_find_char_first(s, c, i + 1, e);
    }
}

/// Find the first occurrence of `c` at or after position `i`.
pub fn find_char_from_exec(s: &str, c: char, i: usize) -> (r: usize)
    requires
        i <= s@.len(),
    ensures
        r == find_char_from(s@, c, i as int),
        i <= r <= s@.len(),
{
    let n = s.unicode_len();
    let mut e: usize = i;
    while e < n && s.get_char(e) != c
        invariant
            n == s@.len(),
            i <= e <= n,
            forall|j: int| i <= j < e ==> s@[j] != c,
        decreases n - e,
    {
        e += 1;
    }
    proof {
        lemma_find_char_first(s@, c, i as int, e as int);
    }
    e
}

/// Decimal digit character for a value below ten.
pub open spec fn digit_char(d: int) -> char {
    if d == 0 {
        '0'
    } else if d == 1 {
        '1'
    } else if d == 2 {
        '2'
    } else if d == 3 {
        '3'
    } else if d == 4 {
        '4'
    } else if d == 5 {
        '5'
    } else if d == 6 {
        '6'
    } else if d == 7 {
        '7'
    } else if d == 8 {
        '8'
    } else {
        '9'
    }
}

/// Decimal rendering of a natural number, most significant digit first.
pub open spec fn dec_digits(n: int) -> Seq<char>
    decreases n,
{
    if n < 10 {
        seq![digit_char(n)]
    } else {
        dec_digits(n / 10).push(digit_char(n % 10))
    }
}

/// Render `n` in decimal.
pub fn u64_to_string(n: u64) -> (r: String)
    ensures
        r@ == dec_digits(n as int),
{
    let digits = "0123456789";
    proof {
        reveal_strlit("0123456789");
    }
    let mut rev: Vec<u8> = Vec::new();
    let mut m: u64 = n;
    while m >= 10
        invariant
            digits@.len() == 10,
            forall|d: int| 0 <= d < 10 ==> digits@[d] == digit_char(d),
            0 <= m,
            forall|k: int| 0 <= k < rev@.len() ==> 0 <= #[trigger] rev@[k] < 10,
            dec_digits(n as int) =~= dec_digits(m as int) + Seq::new(
                rev@.len(),
                |k: int| digit_char(rev@[rev@.len() - 1 - k] as int),
            ),
        decreases m,
    {
        let d: u8 = (m % 10) as u8;
        rev.push(d);
        m = m / 10;
        proof {
            assert(dec_digits(n as int) =~= dec_digits(m as int) + Seq::new(
                rev@.len(),
                |k: int| digit_char(rev@[rev@.len() - 1 - k] as int),
            ));
        }
    }
    let first: u8 = m as u8;
    let mut out = digits.substring_char(first as usize, first as usize + 1).to_owned();
    assert(out@ =~= dec_digits(m as int));
    let mut k: usize = rev.len();
    while k > 0
        invariant
            digits@.len() == 10,
            forall|d: int| 0 <= d < 10 ==> digits@[d] == digit_char(d),
            0 <= k <= rev@.len(),
            forall|t: int| 0 <= t < rev@.len() ==> 0 <= #[trigger] rev@[t] < 10,
            dec_digits(n as int) =~= out@ + Seq::new(
                k as nat,
                |t: int| digit_char(rev@[k - 1 - t] as int),
            ),
        decreases k,
    {
        k -= 1;
        let d = rev[k];
        let piece = digits.substring_char(d as usize, d as usize + 1);
        out.append(piece);
        proof {
            assert(dec_digits(n as int) =~= out@ + Seq::new(
                k as nat,
                |t: int| digit_char(rev@[k - 1 - t] as int),
            ));
        }
    }
    assert(out@ =~= dec_digits(n as int));
    out
}

} // verus!
