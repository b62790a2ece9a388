//! Query normalization: the canonical form of free query text, used as the
//! key of the history store's per-query map and for all textual matching,
//! and the splitting of a query into a stem and a known launchable
//! extension.

use vstd::prelude::*;

use crate::text::{char_lower, char_to_lowercase, is_unicode_space, is_whitespace_char, is_suffix,
    str_chars, str_ends_with};

verus! {

/// `s` without its leading whitespace.
pub open spec fn trim_start_spec(s: Seq<char>) -> Seq<char>
    decreases s.len(),
{
    if s.len() > 0 && is_unicode_space(s[0]) {
        trim_start_spec(s.skip(1))
    } else {
        s
    }
}

/// `s` without its trailing whitespace.
pub open spec fn trim_end_spec(s: Seq<char>) -> Seq<char>
    decreases s.len(),
{
    if s.len() > 0 && is_unicode_space(s.last()) {
        trim_end_spec(s.drop_last())
    } else {
        s
    }
}

/// `s` without leading and trailing whitespace.
pub open spec fn trim_spec(s: Seq<char>) -> Seq<char> {
    trim_end_spec(trim_start_spec(s))
}

/// One pass over already-trimmed text: each run of whitespace becomes a
/// single space, every other character is replaced by its lowercase
/// expansion. `prev_space` records whether the previous character fell in a
/// whitespace run.
pub open spec fn norm_rec(s: Seq<char>, prev_space: bool) -> Seq<char>
    decreases s.len(),
{
    if s.len() == 0 {
        Seq::empty()
    } else if is_unicode_space(s[0]) {
        if prev_space {
            norm_rec(s.skip(1), true)
        } else {
            seq![' '] + norm_rec(s.skip(1), true)
        }
    } else {
        char_lower(s[0]) + norm_rec(s.skip(1), false)
    }
}

/// The canonical form of a query: trimmed, whitespace runs collapsed to one
/// space, characters lowercased.
pub open spec fn normalize_spec(s: Seq<char>) -> Seq<char> {
    norm_rec(trim_spec(s), false)
}

pub proof fn lemma_trim_start_at(s: Seq<char>, k: int)
    requires
        0 <= k <= s.len(),
        forall|j: int| 0 <= j < k ==> is_unicode_space(s[j]),
        k == s.len() || !is_unicode_space(s[k]),
    ensures
        trim_start_spec(s) == s.skip(k),
    decreases k,
{
    if k == 0 {
        assert(s.skip(0) =~= s);
    } else {
        assert(is_unicode_space(s[0]));
        lemma_trim_start_at(s.skip(1), k - 1);
        assert(s.skip(1).skip(k - 1) =~= s.skip(k));
    }
}

pub proof fn lemma_trim_end_at(s: Seq<char>, k: int)
    requires
        0 <= k <= s.len(),
        forall|j: int| k <= j < s.len() ==> is_unicode_space(s[j]),
        k == 0 || !is_unicode_space(s[k - 1]),
    ensures
        trim_end_spec(s) == s.take(k),
    decreases s.len(),
{
    if k == s.len() {
        if s.len() == 0 {
            assert(s.take(0) =~= s);
        } else {
            assert(!is_unicode_space(s.last()));
            assert(s.take(k) =~= s);
        }
    } else {
        assert(is_unicode_space(s.last()));
        lemma_trim_end_at(s.drop_last(), k);
        assert(s.drop_last().take(k) =~= s.take(k));
    }
}

/// The text of `s` without leading and trailing whitespace.
pub fn trim_str(s: &str) -> (r: String)
    ensures
        r@ == trim_spec(s@),
{
    let n = s.unicode_len();
    let mut start: usize = 0;
    while start < n && is_whitespace_char(s.get_char(start))
        invariant
            n == s@.len(),
            start <= n,
            forall|j: int| 0 <= j < start ==> is_unicode_space(s@[j]),
        decreases n - start,
    {
        start = start + 1;
    }
    proof {
        lemma_trim_start_at(s@, start as int);
    }
    let ghost skipped = s@.skip(start as int);
    let mut end: usize = n;
    while end > start && is_whitespace_char(s.get_char(end - 1))
        invariant
            n == s@.len(),
            start <= end <= n,
            forall|j: int| end <= j < n ==> is_unicode_space(s@[j]),
        decreases end,
    {
        end = end - 1;
    }
    proof {
        assert(forall|j: int| end - start <= j < skipped.len() ==> is_unicode_space(skipped[j]));
        lemma_trim_end_at(skipped, end - start);
    }
    let out = s.substring_char(start, end);
    assert(out@ =~= skipped.take(end - start));
    out.to_owned()
}

/// Trim, collapse whitespace runs to a single space, and lowercase.
pub fn normalize_query(query: &str) -> (r: String)
    ensures
        r@ == normalize_spec(query@),
{
    let chars = str_chars(query);
    let n = chars.len();

    let mut start: usize = 0;
    while start < n && is_whitespace_char(chars[start])
        invariant
            n == chars@.len(),
            chars@ == query@,
            start <= n,
            forall|j: int| 0 <= j < start ==> is_unicode_space(query@[j]),
        decreases n - start,
    {
        start = start + 1;
    }
    proof {
        lemma_trim_start_at(query@, start as int);
    }
    let ghost skipped = query@.skip(start as int);

    let mut end: usize = n;
    while end > start && is_whitespace_char(chars[end - 1])
        invariant
            n == chars@.len(),
            chars@ == query@,
            start <= end <= n,
            skipped == query@.skip(start as int),
            forall|j: int| end <= j < n ==> is_unicode_space(query@[j]),
        decreases end,
    {
        end = end - 1;
    }
    proof {
        assert(forall|j: int| end - start <= j < skipped.len() ==> is_unicode_space(skipped[j]));
        lemma_trim_end_at(skipped, end - start);
    }
    let ghost trimmed = trim_spec(query@);
    proof {
        assert(trimmed == skipped.take(end - start));
    }

    let mut out = String::new();
    let mut prev_space = false;
    let mut i: usize = start;
    proof {
        assert(trimmed.skip(0) =~= trimmed);
    }
    while i < end
        invariant
            n == chars@.len(),
            chars@ == query@,
            start <= i <= end <= n,
            trimmed == query@.skip(start as int).take(end - start),
            norm_rec(trimmed, false) == out@ + norm_rec(trimmed.skip(i - start), prev_space),
        decreases end - i,
    {
        let c = chars[i];
        let ghost rest = trimmed.skip(i - start);
        proof {
            assert(rest[0] == query@[i as int]);
            assert(rest.skip(1) =~= trimmed.skip(i + 1 - start));
        }
        if is_whitespace_char(c) {
            if !prev_space {
                out.append(" ");
                proof {
                    reveal_strlit(" ");
                    assert(" "@ =~= seq![' ']);
                }
            }
            prev_space = true;
        } else {
            let lowered = char_to_lowercase(c);
            out.append(lowered.as_str());
            prev_space = false;
        }
        i = i + 1;
    }
    proof {
        assert(trimmed.skip(end - start) =~= Seq::<char>::empty());
        assert(out@ =~= out@ + norm_rec(trimmed.skip(end - start), prev_space));
    }
    out
}

/// The fixed set of launchable extensions recognized at the end of a query,
/// tried in this order.
pub open spec fn split_extension_spec(q: Seq<char>) -> (Seq<char>, Option<Seq<char>>) {
    if is_suffix(".exe"@, q) {
        (q.take(q.len() - ".exe"@.len()), Some(".exe"@))
    } else if is_suffix(".lnk"@, q) {
        (q.take(q.len() - ".lnk"@.len()), Some(".lnk"@))
    } else if is_suffix(".bat"@, q) {
        (q.take(q.len() - ".bat"@.len()), Some(".bat"@))
    } else if is_suffix(".cmd"@, q) {
        (q.take(q.len() - ".cmd"@.len()), Some(".cmd"@))
    } else if is_suffix(".msi"@, q) {
        (q.take(q.len() - ".msi"@.len()), Some(".msi"@))
    } else if is_suffix(".com"@, q) {
        (q.take(q.len() - ".com"@.len()), Some(".com"@))
    } else if is_suffix(".scr"@, q) {
        (q.take(q.len() - ".scr"@.len()), Some(".scr"@))
    } else if is_suffix(".ps1"@, q) {
        (q.take(q.len() - ".ps1"@.len()), Some(".ps1"@))
    } else {
        (q, None)
    }
}

/// Strip `ext` from the end of `query`, if it ends with it.
fn try_strip_suffix<'a>(query: &'a str, ext: &'static str) -> (r: Option<&'a str>)
    ensures
        r is Some <==> is_suffix(ext@, query@),
        r matches Some(stem) ==> stem@ == query@.take(query@.len() - ext@.len()),
{
    if str_ends_with(query, ext) {
        let qn = query.unicode_len();
        let en = ext.unicode_len();
        let stem = query.substring_char(0, qn - en);
        assert(stem@ =~= query@.take(query@.len() - ext@.len()));
        Some(stem)
    } else {
        None
    }
}

/// If the query ends with one of the known launchable extensions, the text
/// before it and that extension; otherwise the whole query and `None`.
pub fn split_query_extension<'a>(query: &'a str) -> (r: (&'a str, Option<&'a str>))
    ensures
        ({
            let (stem, ext) = split_extension_spec(query@);
            &&& r.0@ == stem
            &&& (r.1 is Some <==> ext is Some)
            &&& (r.1 matches Some(e) ==> ext matches Some(se) && e@ == se)
        }),
{
    if let Some(stem) = try_strip_suffix(query, ".exe") {
        return (stem, Some(".exe"));
    }
    if let Some(stem) = try_strip_suffix(query, ".lnk") {
        return (stem, Some(".lnk"));
    }
    if let Some(stem) = try_strip_suffix(query, ".bat") {
        return (stem, Some(".bat"));
    }
    if let Some(stem) = try_strip_suffix(query, ".cmd") {
        return (stem, Some(".cmd"));
    }
    if let Some(stem) = try_strip_suffix(query, ".msi") {
        return (stem, Some(".msi"));
    }
    if let Some(stem) = try_strip_suffix(query, ".com") {
        return (stem, Some(".com"));
    }
    if let Some(stem) = try_strip_suffix(query, ".scr") {
        return (stem, Some(".scr"));
    }
    if let Some(stem) = try_strip_suffix(query, ".ps1") {
        return (stem, Some(".ps1"));
    }
    (query, None)
}

} // verus!
