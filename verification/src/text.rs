//! Character and string helpers shared by the normalizer, the indexer and
//! the search engine: Unicode lowercasing and whitespace tests (named results
//! of the std functions), UTF-8 round trips, and verified lexicographic
//! comparison of character sequences.

use vstd::prelude::*;
use vstd::utf8::{decode_utf8, valid_utf8};

verus! {

/// What `str::to_lowercase` returns for a string with these characters.
pub uninterp spec fn lower_of(s: Seq<char>) -> Seq<char>;

/// What `char::to_lowercase` yields for this character.
pub uninterp spec fn char_lower(c: char) -> Seq<char>;

/// What `char::is_whitespace` returns for this character.
pub uninterp spec fn is_unicode_space(c: char) -> bool;

/// Relies on str::to_lowercase: the result depends on the characters alone.
#[verifier::external_body]
pub fn to_lowercase_of(s: &str) -> (r: String)
    ensures
        r@ == lower_of(s@),
{
    s.to_lowercase()
}

/// Relies on char::to_lowercase: the lowercase mapping of one character,
/// which depends on that character alone.
#[verifier::external_body]
pub fn char_to_lowercase(c: char) -> (r: String)
    ensures
        r@ == char_lower(c),
{
    c.to_lowercase().collect()
}

/// Relies on char::is_whitespace: a property of the character alone.
#[verifier::external_body]
pub fn is_whitespace_char(c: char) -> (r: bool)
    ensures
        r == is_unicode_space(c),
{
    c.is_whitespace()
}

/// Relies on String::from_utf8: succeeds exactly on valid UTF-8 and returns
/// the string those bytes encode.
#[verifier::external_body]
pub fn string_from_utf8(bytes: Vec<u8>) -> (r: Option<String>)
    ensures
        r is Some <==> valid_utf8(bytes@),
        r matches Some(s) ==> s@ == decode_utf8(bytes@),
{
    String::from_utf8(bytes).ok()
}

/// Relies on String::push: appends exactly the one character.
#[verifier::external_body]
pub fn push_char(s: &mut String, c: char)
    ensures
        final(s)@ == old(s)@.push(c),
{
    s.push(c);
}

/// The characters of `s`, in order.
pub fn str_chars(s: &str) -> (r: Vec<char>)
    ensures
        r@ == s@,
{
    let n = s.unicode_len();
    let mut r: Vec<char> = Vec::new();
    let mut i: usize = 0;
    while i < n
        invariant
            n == s@.len(),
            i <= n,
            r@ == s@.take(i as int),
        decreases n - i,
    {
        r.push(s.get_char(i));
        i = i + 1;
        assert(r@ =~= s@.take(i as int));
    }
    assert(r@ =~= s@);
    r
}

/// The code points of a character sequence.
pub open spec fn code_points(s: Seq<char>) -> Seq<u32> {
    s.map_values(|c: char| c as u32)
}

/// Strict lexicographic order on code-point sequences.
pub open spec fn lex_lt(a: Seq<u32>, b: Seq<u32>) -> bool
    decreases a.len(),
{
    if b.len() == 0 {
        false
    } else if a.len() == 0 {
        true
    } else if a[0] < b[0] {
        true
    } else if a[0] == b[0] {
        lex_lt(a.skip(1), b.skip(1))
    } else {
        false
    }
}

pub proof fn lemma_lex_lt_irrefl(a: Seq<u32>)
    ensures
        !lex_lt(a, a),
    decreases a.len(),
{
    if a.len() > 0 {
        lemma_lex_lt_irrefl(a.skip(1));
    }
}

pub proof fn lemma_lex_lt_trans(a: Seq<u32>, b: Seq<u32>, c: Seq<u32>)
    requires
        lex_lt(a, b),
        lex_lt(b, c),
    ensures
        lex_lt(a, c),
    decreases a.len(),
{
    if a.len() > 0 && b.len() > 0 && c.len() > 0 {
        if a[0] == b[0] && b[0] == c[0] {
            lemma_lex_lt_trans(a.skip(1), b.skip(1), c.skip(1));
        }
    }
}

/// Two code-point sequences that are not ordered either way are equal.
pub proof fn lemma_lex_lt_connected(a: Seq<u32>, b: Seq<u32>)
    requires
        !lex_lt(a, b),
        !lex_lt(b, a),
    ensures
        a == b,
    decreases a.len(),
{
    if a.len() == 0 && b.len() == 0 {
        assert(a =~= b);
    } else if a.len() > 0 && b.len() > 0 {
        assert(a[0] == b[0]);
        lemma_lex_lt_connected(a.skip(1), b.skip(1));
        assert(a =~= seq![a[0]] + a.skip(1));
        assert(b =~= seq![b[0]] + b.skip(1));
    }
}

/// The code points of the characters of `s`, in order.
pub fn str_code_points(s: &str) -> (r: Vec<u32>)
    ensures
        r@ == code_points(s@),
{
    let n = s.unicode_len();
    let mut r: Vec<u32> = Vec::new();
    let mut i: usize = 0;
    while i < n
        invariant
            n == s@.len(),
            i <= n,
            r@ == code_points(s@.take(i as int)),
        decreases n - i,
    {
        r.push(s.get_char(i) as u32);
        i = i + 1;
        assert(r@ =~= code_points(s@.take(i as int)));
    }
    assert(s@.take(n as int) =~= s@);
    r
}

/// Decide `lex_lt(a@, b@)`.
pub fn lex_lt_u32(a: &Vec<u32>, b: &Vec<u32>) -> (r: bool)
    ensures
        r == lex_lt(a@, b@),
{
    let mut i: usize = 0;
    proof {
        assert(a@.skip(0) =~= a@);
        assert(b@.skip(0) =~= b@);
        assert(a@.take(0) =~= b@.take(0));
    }
    loop
        invariant
            i <= a.len(),
            i <= b.len(),
            a@.take(i as int) == b@.take(i as int),
            lex_lt(a@, b@) == lex_lt(a@.skip(i as int), b@.skip(i as int)),
        decreases a.len() - i,
    {
        if i == b.len() {
            return false;
        }
        if i == a.len() {
            return true;
        }
        let ca = a[i];
        let cb = b[i];
        if ca < cb {
            return true;
        }
        if ca != cb {
            return false;
        }
        i = i + 1;
        proof {
            assert(a@.take(i as int) =~= b@.take(i as int));
            assert(a@.skip(i - 1).skip(1) =~= a@.skip(i as int));
            assert(b@.skip(i - 1).skip(1) =~= b@.skip(i as int));
        }
    }
}

/// `q` is a prefix of `s`.
pub open spec fn is_prefix(q: Seq<char>, s: Seq<char>) -> bool {
    q.len() <= s.len() && s.take(q.len() as int) == q
}

/// `q` is a suffix of `s`.
pub open spec fn is_suffix(q: Seq<char>, s: Seq<char>) -> bool {
    q.len() <= s.len() && s.skip(s.len() - q.len()) == q
}

/// `q` occurs in `s` starting at position `i`.
pub open spec fn occurs_at(s: Seq<char>, q: Seq<char>, i: int) -> bool {
    0 <= i && i + q.len() <= s.len() && s.subrange(i, i + q.len()) == q
}

/// Decide whether `q@` is a prefix of `s@`.
pub fn chars_starts_with(s: &Vec<char>, q: &Vec<char>) -> (r: bool)
    ensures
        r == is_prefix(q@, s@),
{
    if q.len() > s.len() {
        return false;
    }
    let mut i: usize = 0;
    while i < q.len()
        invariant
            q.len() <= s.len(),
            i <= q.len(),
            s@.take(i as int) == q@.take(i as int),
        decreases q.len() - i,
    {
        if s[i] != q[i] {
            assert(s@.take(q@.len() as int) != q@) by {
                assert(s@.take(q@.len() as int)[i as int] != q@[i as int]);
            }
            return false;
        }
        i = i + 1;
        assert(s@.take(i as int) =~= q@.take(i as int));
    }
    assert(s@.take(q@.len() as int) =~= q@);
    true
}

/// Whether `q@` occurs in `s@` at position `at`.
fn chars_match_at(s: &Vec<char>, q: &Vec<char>, at: usize) -> (r: bool)
    requires
        at + q@.len() <= s@.len(),
    ensures
        r == occurs_at(s@, q@, at as int),
{
    let n = s.len();
    let mut i: usize = 0;
    while i < q.len()
        invariant
            n == s@.len(),
            at + q@.len() <= s@.len(),
            i <= q.len(),
            s@.subrange(at as int, at + i) == q@.take(i as int),
        decreases q.len() - i,
    {
        if s[at + i] != q[i] {
            assert(s@.subrange(at as int, at + q@.len()) != q@) by {
                assert(s@.subrange(at as int, at + q@.len())[i as int] != q@[i as int]);
            }
            return false;
        }
        i = i + 1;
        assert(s@.subrange(at as int, at + i) =~= q@.take(i as int));
    }
    assert(s@.subrange(at as int, at + q@.len()) =~= q@);
    true
}

/// The first position where `q@` occurs in `s@`, if any.
pub fn chars_find(s: &Vec<char>, q: &Vec<char>) -> (r: Option<usize>)
    ensures
        r matches Some(i) ==> occurs_at(s@, q@, i as int) && (forall|j: int|
            0 <= j < i ==> !occurs_at(s@, q@, j)),
        r is None ==> forall|j: int| !occurs_at(s@, q@, j),
{
    if q.len() > s.len() {
        assert(forall|j: int| !occurs_at(s@, q@, j));
        return None;
    }
    if q.len() == 0 {
        assert(s@.subrange(0, 0) =~= q@);
        return Some(0);
    }
    let last = s.len() - q.len();
    let mut at: usize = 0;
    while at <= last
        invariant
            1 <= q.len() <= s.len(),
            last == s.len() - q.len(),
            at <= last + 1,
            forall|j: int| 0 <= j < at ==> !occurs_at(s@, q@, j),
        decreases last + 1 - at,
    {
        if chars_match_at(s, q, at) {
            return Some(at);
        }
        at = at + 1;
    }
    assert(forall|j: int| !occurs_at(s@, q@, j)) by {
        assert(forall|j: int| j > last ==> !occurs_at(s@, q@, j));
    }
    None
}

/// The ASCII-case-folded code point of a character: letters `A` to `Z`
/// map to their lowercase forms, every other character is itself.
pub open spec fn ascii_lower_u32(c: char) -> u32 {
    if 65 <= (c as u32) && (c as u32) <= 90 {
        ((c as u32) + 32) as u32
    } else {
        c as u32
    }
}

/// Two character sequences are equal up to ASCII case.
pub open spec fn eq_ignore_ascii_case_spec(a: Seq<char>, b: Seq<char>) -> bool {
    a.len() == b.len() && forall|i: int| 0 <= i < a.len() ==> ascii_lower_u32(a[i]) == ascii_lower_u32(b[i])
}

/// Decide ASCII-case-insensitive equality of two strings.
pub fn str_eq_ignore_ascii_case(a: &str, b: &str) -> (r: bool)
    ensures
        r == eq_ignore_ascii_case_spec(a@, b@),
{
    let na = a.unicode_len();
    let nb = b.unicode_len();
    if na != nb {
        return false;
    }
    let mut i: usize = 0;
    while i < na
        invariant
            na == a@.len(),
            na == b@.len(),
            i <= na,
            forall|j: int| 0 <= j < i ==> ascii_lower_u32(a@[j]) == ascii_lower_u32(b@[j]),
        decreases na - i,
    {
        let ca = a.get_char(i) as u32;
        let cb = b.get_char(i) as u32;
        let fa = if 65 <= ca && ca <= 90 { ca + 32 } else { ca };
        let fb = if 65 <= cb && cb <= 90 { cb + 32 } else { cb };
        if fa != fb {
            return false;
        }
        i = i + 1;
    }
    true
}

/// Decide whether two strings hold the same characters.
pub fn str_eq(a: &str, b: &str) -> (r: bool)
    ensures
        r == (a@ == b@),
{
    let na = a.unicode_len();
    let nb = b.unicode_len();
    if na != nb {
        return false;
    }
    let mut i: usize = 0;
    while i < na
        invariant
            na == a@.len(),
            na == b@.len(),
            i <= na,
            forall|j: int| 0 <= j < i ==> a@[j] == b@[j],
        decreases na - i,
    {
        if a.get_char(i) != b.get_char(i) {
            return false;
        }
        i = i + 1;
    }
    proof {
        assert(a@ =~= b@);
    }
    true
}

/// Decide whether `suffix@` ends `s@`.
pub fn str_ends_with(s: &str, suffix: &str) -> (r: bool)
    ensures
        r == is_suffix(suffix@, s@),
{
    let n = s.unicode_len();
    let m = suffix.unicode_len();
    if m > n {
        return false;
    }
    let start = n - m;
    let mut i: usize = 0;
    while i < m
        invariant
            n == s@.len(),
            m == suffix@.len(),
            m <= n,
            start == n - m,
            i <= m,
            s@.skip(start as int).take(i as int) == suffix@.take(i as int),
        decreases m - i,
    {
        if s.get_char(start + i) != suffix.get_char(i) {
            assert(s@.skip(start as int) != suffix@) by {
                assert(s@.skip(start as int)[i as int] != suffix@[i as int]);
            }
            return false;
        }
        i = i + 1;
        assert(s@.skip(start as int).take(i as int) =~= suffix@.take(i as int));
    }
    assert(s@.skip(start as int).take(m as int) =~= s@.skip(start as int));
    assert(s@.skip(start as int) =~= suffix@);
    true
}

} // verus!
