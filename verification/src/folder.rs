//! Folder browsing: filtering and ranking of a directory listing, and the
//! navigation-root rules for walking upward. Reading a directory from disk
//! is I/O and stays outside this crate; the reader hands the rows in and
//! gets the ranked listing back.

use vstd::prelude::*;

use crate::history::{HistoryStore, HistoryData, folder_count_spec};
use crate::rank::{RankItem, lemma_perm_facts, rank_le, rank_lt, sort_rank_items};
use crate::search::SearchMode;
use crate::text::{code_points, is_prefix, lex_lt, lower_of, occurs_at, chars_starts_with,
    chars_find, str_chars, str_code_points, to_lowercase_of};
use crate::search::skim_score;
use crate::ui_types::SearchResult;

verus! {

/// Whether a directory entry's name passes the filter text under the mode:
/// both sides lowercased; prefix, substring, or fuzzy.
pub open spec fn matches_filter_spec(name: Seq<char>, filter: Seq<char>, mode: SearchMode) -> bool {
    let nl = lower_of(name);
    let fl = lower_of(filter);
    match mode {
        SearchMode::Prefix => is_prefix(fl, nl),
        SearchMode::Substring => exists|i: int| occurs_at(nl, fl, i),
        SearchMode::Fuzzy => skim_score(nl, fl) is Some,
    }
}

/// Decide whether a name passes the filter.
pub fn matches_filter(name: &str, filter: &str, mode: SearchMode) -> (r: bool)
    ensures
        r == matches_filter_spec(name@, filter@, mode),
{
    let nl = to_lowercase_of(name);
    let fl = to_lowercase_of(filter);
    match mode {
        SearchMode::Prefix => {
            let nc = str_chars(nl.as_str());
            let fc = str_chars(fl.as_str());
            chars_starts_with(&nc, &fc)
        },
        SearchMode::Substring => {
            let nc = str_chars(nl.as_str());
            let fc = str_chars(fl.as_str());
            match chars_find(&nc, &fc) {
                Some(i) => {
                    assert(occurs_at(lower_of(name@), lower_of(filter@), i as int));
                    true
                },
                None => false,
            }
        },
        SearchMode::Fuzzy => {
            let s = crate::search::fuzzy_match_score(nl.as_str(), fl.as_str());
            s.is_some()
        },
    }
}

/// The rows of the listing that pass the filter; an empty filter keeps all
/// rows.
pub open spec fn folder_filter(
    rows: Seq<SearchResult>,
    filter: Seq<char>,
    mode: SearchMode,
) -> Seq<SearchResult>
    decreases rows.len(),
{
    if rows.len() == 0 {
        Seq::empty()
    } else if filter.len() == 0 || matches_filter_spec(rows[0].name@, filter, mode) {
        seq![rows[0]] + folder_filter(rows.skip(1), filter, mode)
    } else {
        folder_filter(rows.skip(1), filter, mode)
    }
}

/// Row `i` of the filtered listing ranks strictly before row `j`: folders
/// before files, then higher expansion count, then name, then position.
pub open spec fn folder_before(rows: Seq<SearchResult>, d: HistoryData, i: int, j: int) -> bool {
    let pi: int = if rows[i].is_folder {
        1
    } else {
        0
    };
    let pj: int = if rows[j].is_folder {
        1
    } else {
        0
    };
    let ci = if rows[i].is_folder {
        folder_count_spec(d, rows[i].path@)
    } else {
        0
    };
    let cj = if rows[j].is_folder {
        folder_count_spec(d, rows[j].path@)
    } else {
        0
    };
    let ni = code_points(lower_of(rows[i].name@));
    let nj = code_points(lower_of(rows[j].name@));
    if pi != pj {
        pi > pj
    } else if ci != cj {
        ci > cj
    } else if lex_lt(ni, nj) {
        true
    } else if lex_lt(nj, ni) {
        false
    } else {
        i < j
    }
}

/// What a ranked folder listing promises, over the filtered rows.
pub open spec fn folder_listing_ok(
    rows: Seq<SearchResult>,
    d: HistoryData,
    maxr: int,
    order: Seq<int>,
    out: Seq<SearchResult>,
) -> bool {
    &&& order.no_duplicates()
    &&& order.len() <= maxr
    &&& (forall|k: int| 0 <= k < order.len() ==> 0 <= #[trigger] order[k] < rows.len())
    &&& (order.len() < maxr ==> order.len() == rows.len())
    &&& (forall|k1: int, k2: int| 0 <= k1 < k2 < order.len() ==> folder_before(
        rows,
        d,
        #[trigger] order[k1],
        #[trigger] order[k2],
    ))
    &&& (forall|i: int, k: int|
        #![trigger order.contains(i), order[k]]
        0 <= i < rows.len() && !order.contains(i) && 0 <= k < order.len() ==> folder_before(
            rows,
            d,
            order[k],
            i,
        ))
    &&& out.len() == order.len()
    &&& (forall|k: int| 0 <= k < order.len() ==> out[k] == rows[#[trigger] order[k]])
}

/// Filter a directory listing, rank it with folders first, and cap it.
pub fn list_folder_rank(
    rows: Vec<SearchResult>,
    filter: &str,
    mode: SearchMode,
    history: &HistoryStore,
    max_results: usize,
) -> (r: Vec<SearchResult>)
    ensures
        exists|order: Seq<int>| folder_listing_ok(
            folder_filter(rows@, filter@, mode),
            history.spec_data(),
            max_results as int,
            order,
            r@,
        ),
{
    let ghost dv = history.spec_data();
    let ghost rows0 = rows@;
    let mut rest = rows;
    let mut kept: Vec<SearchResult> = Vec::new();
    let empty_filter = filter.is_empty();
    while rest.len() > 0
        invariant
            folder_filter(rows0, filter@, mode) == kept@ + folder_filter(rest@, filter@, mode),
            empty_filter == (filter@.len() == 0),
        decreases rest@.len(),
    {
        let ghost rest0 = rest@;
        let row = rest.remove(0);
        proof {
            assert(rest@ =~= rest0.skip(1));
        }
        if empty_filter || matches_filter(row.name.as_str(), filter, mode) {
            let ghost kept0 = kept@;
            kept.push(row);
            proof {
                assert(folder_filter(rest0, filter@, mode) =~= seq![rest0[0]] + folder_filter(
                    rest0.skip(1),
                    filter@,
                    mode,
                ));
                assert(kept@ + folder_filter(rest@, filter@, mode) =~= kept0 + folder_filter(
                    rest0,
                    filter@,
                    mode,
                ));
            }
        } else {
            proof {
                assert(folder_filter(rest0, filter@, mode) == folder_filter(
                    rest0.skip(1),
                    filter@,
                    mode,
                ));
            }
        }
    }
    proof {
        assert(folder_filter(rest@, filter@, mode) =~= Seq::<SearchResult>::empty());
        assert(kept@ =~= kept@ + folder_filter(rest@, filter@, mode));
        assert(kept@ == folder_filter(rows0, filter@, mode));
    }
    let ghost fv = kept@;
    let n = kept.len();
    let mut items: Vec<RankItem> = Vec::new();
    let mut i: usize = 0;
    while i < n
        invariant
            history.spec_data() == dv,
            fv == kept@,
            n == fv.len(),
            i <= n,
            items@.len() == i,
            forall|k: int| 0 <= k < i ==> {
                let it = #[trigger] items@[k];
                &&& it.idx == k
                &&& it.primary == (if fv[k].is_folder {
                    1int
                } else {
                    0int
                })
                &&& it.secondary == (if fv[k].is_folder {
                    folder_count_spec(dv, fv[k].path@) as int
                } else {
                    0int
                })
                &&& it.name_key@ == code_points(lower_of(fv[k].name@))
            },
        decreases n - i,
    {
        let is_f = kept[i].is_folder;
        let count: u32 = if is_f {
            history.folder_expansion_count(kept[i].path.as_str())
        } else {
            0
        };
        let lowered = to_lowercase_of(kept[i].name.as_str());
        let name_cp = str_code_points(lowered.as_str());
        items.push(
            RankItem {
                primary: if is_f {
                    1
                } else {
                    0
                },
                secondary: count as u64,
                name_key: name_cp,
                idx: i,
            },
        );
        i = i + 1;
    }
    let ghost items0 = items@;
    let sorted = sort_rank_items(items);
    proof {
        assert(forall|a: int, b: int| 0 <= a < b < items0.len() ==> items0[a].idx != items0[b].idx);
        lemma_perm_facts(items0, sorted@);
        assert forall|k: int| 0 <= k < sorted@.len() implies {
            let it = #[trigger] sorted@[k];
            &&& it.idx < n
            &&& it.primary == (if fv[it.idx as int].is_folder {
                1int
            } else {
                0int
            })
            &&& it.secondary == (if fv[it.idx as int].is_folder {
                folder_count_spec(dv, fv[it.idx as int].path@) as int
            } else {
                0int
            })
            &&& it.name_key@ == code_points(lower_of(fv[it.idx as int].name@))
        } by {
            assert(items0.contains(sorted@[k]));
        }
    }
    let mut out: Vec<SearchResult> = Vec::new();
    let mut k: usize = 0;
    while k < sorted.len() && k < max_results
        invariant
            fv == kept@,
            n == fv.len(),
            sorted@.len() == n,
            forall|t: int| 0 <= t < sorted@.len() ==> (#[trigger] sorted@[t]).idx < n,
            k <= sorted@.len(),
            k <= max_results,
            out@.len() == k,
            forall|t: int| 0 <= t < k ==> out@[t] == fv[(#[trigger] sorted@[t]).idx as int],
        decreases sorted@.len() - k,
    {
        let idx = sorted[k].idx;
        let e = &kept[idx];
        out.push(
            SearchResult {
                name: e.name.clone(),
                path: e.path.clone(),
                is_folder: e.is_folder,
                is_error: e.is_error,
            },
        );
        proof {
            assert(out@[k as int] == fv[sorted@[k as int].idx as int]);
        }
        k = k + 1;
    }
    proof {
        let sortedv = sorted@;
        let order = Seq::new(out@.len() as nat, |t: int| sortedv[t].idx as int);
        assert(order.no_duplicates()) by {
            assert forall|t1: int, t2: int|
                0 <= t1 < order.len() && 0 <= t2 < order.len() && t1 != t2 implies order[t1]
                != order[t2] by {
                if t1 < t2 {
                    assert(sortedv[t1].idx != sortedv[t2].idx);
                } else {
                    assert(sortedv[t2].idx != sortedv[t1].idx);
                }
            }
        }
        assert forall|k1: int, k2: int| 0 <= k1 < k2 < order.len() implies folder_before(
            fv,
            dv,
            #[trigger] order[k1],
            #[trigger] order[k2],
        ) by {
            assert(rank_le(sortedv[k1], sortedv[k2]));
            assert(sortedv[k1].idx != sortedv[k2].idx);
            if !rank_lt(sortedv[k1], sortedv[k2]) {
                crate::rank::lemma_rank_connected(sortedv[k1], sortedv[k2]);
            }
        }
        assert forall|j: int, kk: int|
            #![trigger order.contains(j), order[kk]]
            0 <= j < fv.len() && !order.contains(j) && 0 <= kk < order.len() implies folder_before(
            fv,
            dv,
            order[kk],
            j,
        ) by {
            assert(items0[j].idx == j);
            assert(items0.contains(items0[j]));
            assert(sortedv.contains(items0[j]));
            let pos = choose|pos: int| 0 <= pos < sortedv.len() && sortedv[pos] == items0[j];
            assert(sortedv[pos].idx == j);
            if pos < order.len() {
                assert(order[pos] == j);
                assert(order.contains(j));
            }
            assert(pos >= order.len());
            assert(rank_le(sortedv[kk], sortedv[pos]));
            assert(sortedv[kk].idx != sortedv[pos].idx);
            if !rank_lt(sortedv[kk], sortedv[pos]) {
                crate::rank::lemma_rank_connected(sortedv[kk], sortedv[pos]);
            }
        }
        assert(folder_listing_ok(
            folder_filter(rows0, filter@, mode),
            history.spec_data(),
            max_results as int,
            order,
            out@,
        ));
    }
    out
}

/// A path separator as typed in configuration or returned by the system.
pub open spec fn nav_sep(c: char) -> bool {
    c == '\\' || c == '/'
}

/// The trimmed path with every `/` turned into `\` and trailing separators
/// dropped, the form the root rules are stated over.
pub open spec fn nav_canon(p: Seq<char>) -> Seq<char> {
    drop_trailing_seps(crate::query::trim_spec(p).map_values(|c: char| to_backslash(c)))
}

pub open spec fn to_backslash(c: char) -> char {
    if c == '/' {
        '\\'
    } else {
        c
    }
}

pub open spec fn drop_trailing_seps(p: Seq<char>) -> Seq<char>
    decreases p.len(),
{
    if p.len() > 0 && p.last() == '\\' {
        drop_trailing_seps(p.drop_last())
    } else {
        p
    }
}

proof fn lemma_drop_trailing_at(p: Seq<char>, k: int)
    requires
        0 <= k <= p.len(),
        forall|j: int| k <= j < p.len() ==> p[j] == '\\',
        k == 0 || p[k - 1] != '\\',
    ensures
        drop_trailing_seps(p) == p.take(k),
    decreases p.len(),
{
    if k == p.len() {
        if p.len() == 0 {
            assert(p.take(0) =~= p);
        } else {
            assert(p.take(k) =~= p);
        }
    } else {
        assert(p.last() == '\\');
        lemma_drop_trailing_at(p.drop_last(), k);
        assert(p.drop_last().take(k) =~= p.take(k));
    }
}

/// The number of non-empty segments between backslashes.
pub open spec fn seg_count(s: Seq<char>, in_seg: bool) -> int
    decreases s.len(),
{
    if s.len() == 0 {
        0
    } else if s[0] == '\\' {
        seg_count(s.skip(1), false)
    } else if in_seg {
        seg_count(s.skip(1), true)
    } else {
        1 + seg_count(s.skip(1), true)
    }
}

/// Whether a path is a navigation root: a bare drive like `C:` (with or
/// without a trailing separator), or a UNC server or share like
/// `\\server\share`.
pub open spec fn is_navigation_root_spec(path: Seq<char>) -> bool {
    let t = nav_canon(path);
    if t.len() == 2 {
        (65 <= (t[0] as u32) && (t[0] as u32) <= 90 || 97 <= (t[0] as u32) && (t[0] as u32) <= 122)
            && t[1] == ':'
    } else if t.len() >= 2 && t[0] == '\\' && t[1] == '\\' {
        seg_count(t.skip(2), false) <= 2
    } else {
        false
    }
}

/// Decide whether `path` is a navigation root, above which the browser does
/// not walk.
pub fn is_navigation_root(path: &str) -> (r: bool)
    ensures
        r == is_navigation_root_spec(path@),
{
    let trimmed = crate::query::trim_str(path);
    let tc0 = str_chars(trimmed.as_str());
    let mut canon: Vec<char> = Vec::new();
    let mut i: usize = 0;
    let ghost mapped = trimmed@.map_values(|c: char| to_backslash(c));
    while i < tc0.len()
        invariant
            tc0@ == trimmed@,
            mapped == trimmed@.map_values(|c: char| to_backslash(c)),
            i <= tc0@.len(),
            canon@ == mapped.take(i as int),
        decreases tc0@.len() - i,
    {
        let c = tc0[i];
        canon.push(
            if c == '/' {
                '\\'
            } else {
                c
            },
        );
        i = i + 1;
        assert(canon@ =~= mapped.take(i as int));
    }
    proof {
        assert(canon@ =~= mapped);
    }
    let mut end = canon.len();
    while end > 0 && canon[end - 1] == '\\'
        invariant
            canon@ == mapped,
            end <= canon@.len(),
            forall|j: int| end <= j < canon@.len() ==> canon@[j] == '\\',
        decreases end,
    {
        end = end - 1;
    }
    proof {
        lemma_drop_trailing_at(mapped, end as int);
    }
    let ghost t = nav_canon(path@);
    proof {
        assert(t == mapped.take(end as int));
    }
    if end == 2 {
        let c0 = canon[0] as u32;
        let c1 = canon[1];
        proof {
            assert(t[0] == canon@[0] && t[1] == canon@[1]);
        }
        return (65 <= c0 && c0 <= 90 || 97 <= c0 && c0 <= 122) && c1 == ':';
    }
    if end >= 2 && canon[0] == '\\' && canon[1] == '\\' {
        proof {
            assert(t[0] == canon@[0] && t[1] == canon@[1]);
        }
        let mut count: usize = 0;
        let mut in_seg = false;
        let mut j: usize = 2;
        proof {
            assert(t.skip(2) =~= t.skip(2));
        }
        while j < end
            invariant
                canon@ == mapped,
                t == mapped.take(end as int),
                end <= canon@.len(),
                2 <= j <= end,
                count <= j,
                seg_count(t.skip(2), false) == count + seg_count(t.skip(j as int), in_seg),
            decreases end - j,
        {
            let ghost restj = t.skip(j as int);
            let c = canon[j];
            proof {
                assert(restj[0] == t[j as int]);
                assert(t[j as int] == canon@[j as int]);
                assert(restj.skip(1) =~= t.skip(j + 1));
            }
            if c == '\\' {
                in_seg = false;
            } else if !in_seg {
                count = count + 1;
                in_seg = true;
            }
            j = j + 1;
        }
        proof {
            assert(t.skip(end as int) =~= Seq::<char>::empty());
        }
        return count <= 2;
    }
    false
}

/// The directory above `current_dir` for upward navigation: `None` at a
/// navigation root or when no parent remains. A parent that is a bare drive
/// keeps its separator, as in `C:\`.
/// `p` with trailing separators of either spelling dropped.
pub open spec fn drop_trailing_nav(p: Seq<char>) -> Seq<char>
    decreases p.len(),
{
    if p.len() > 0 && nav_sep(p.last()) {
        drop_trailing_nav(p.drop_last())
    } else {
        p
    }
}

proof fn lemma_drop_trailing_nav_at(p: Seq<char>, k: int)
    requires
        0 <= k <= p.len(),
        forall|j: int| k <= j < p.len() ==> nav_sep(p[j]),
        k == 0 || !nav_sep(p[k - 1]),
    ensures
        drop_trailing_nav(p) == p.take(k),
    decreases p.len(),
{
    if k == p.len() {
        assert(p.take(k) =~= p);
    } else {
        assert(nav_sep(p.last()));
        lemma_drop_trailing_nav_at(p.drop_last(), k);
        assert(p.drop_last().take(k) =~= p.take(k));
    }
}

/// The text before the last separator of `u`, or `None` when `u` has no
/// separator.
pub open spec fn split_last_sep(u: Seq<char>) -> Option<Seq<char>>
    decreases u.len(),
{
    if u.len() == 0 {
        None
    } else if nav_sep(u.last()) {
        Some(u.drop_last())
    } else {
        split_last_sep(u.drop_last())
    }
}

proof fn lemma_split_last_sep_at(u: Seq<char>, k: int)
    requires
        0 < k <= u.len(),
        nav_sep(u[k - 1]),
        forall|j: int| k <= j < u.len() ==> !nav_sep(u[j]),
    ensures
        split_last_sep(u) == Some(u.take(k - 1)),
    decreases u.len(),
{
    if k == u.len() {
        assert(u.take(k - 1) =~= u.drop_last());
    } else {
        assert(!nav_sep(u.last()));
        lemma_split_last_sep_at(u.drop_last(), k);
        assert(u.drop_last().take(k - 1) =~= u.take(k - 1));
    }
}

proof fn lemma_split_last_sep_none(u: Seq<char>)
    requires
        forall|j: int| 0 <= j < u.len() ==> !nav_sep(u[j]),
    ensures
        split_last_sep(u) is None,
    decreases u.len(),
{
    if u.len() > 0 {
        lemma_split_last_sep_none(u.drop_last());
    }
}

/// The directory above a path for upward navigation: `None` at a navigation
/// root, when the path has no separator, or when nothing remains before it.
/// A parent that is a bare drive keeps its separator, as in `C:\`.
pub open spec fn parent_nav_spec(path: Seq<char>) -> Option<Seq<char>> {
    if is_navigation_root_spec(path) {
        None
    } else {
        let u = drop_trailing_nav(crate::query::trim_spec(path));
        match split_last_sep(u) {
            None => None,
            Some(p) => {
                if p.len() == 0 {
                    None
                } else if p.len() == 2 && p[1] == ':' {
                    Some(p + seq!['\\'])
                } else {
                    Some(p)
                }
            },
        }
    }
}

/// Walk one step up from `current_dir`.
pub fn parent_for_navigation(current_dir: &str) -> (r: Option<String>)
    ensures
        r is Some <==> parent_nav_spec(current_dir@) is Some,
        r matches Some(p) ==> parent_nav_spec(current_dir@) matches Some(sp) && p@ == sp,
{
    if is_navigation_root(current_dir) {
        return None;
    }
    let trimmed = crate::query::trim_str(current_dir);
    let n = trimmed.as_str().unicode_len();
    let mut end = n;
    let mut stop = false;
    while !stop
        invariant
            n == trimmed@.len(),
            end <= n,
            forall|j: int| end <= j < n ==> nav_sep(trimmed@[j]),
            stop ==> end == 0 || !nav_sep(trimmed@[end - 1]),
        decreases 2 * end + (if stop {
            0int
        } else {
            1int
        }),
    {
        if end == 0 {
            stop = true;
        } else {
            let c = trimmed.as_str().get_char(end - 1);
            if c == '\\' || c == '/' {
                end = end - 1;
            } else {
                stop = true;
            }
        }
    }
    proof {
        lemma_drop_trailing_nav_at(trimmed@, end as int);
    }
    let ghost u = drop_trailing_nav(crate::query::trim_spec(current_dir@));
    proof {
        assert(u == trimmed@.take(end as int));
    }
    let mut k = end;
    let mut stop2 = false;
    while !stop2
        invariant
            n == trimmed@.len(),
            k <= end <= n,
            u == trimmed@.take(end as int),
            forall|j: int| k <= j < end ==> !nav_sep(trimmed@[j]),
            stop2 ==> k == 0 || nav_sep(trimmed@[k - 1]),
        decreases 2 * k + (if stop2 {
            0int
        } else {
            1int
        }),
    {
        if k == 0 {
            stop2 = true;
        } else {
            let c = trimmed.as_str().get_char(k - 1);
            if c == '\\' || c == '/' {
                stop2 = true;
            } else {
                k = k - 1;
            }
        }
    }
    if k == 0 {
        proof {
            assert(forall|j: int| 0 <= j < u.len() ==> u[j] == trimmed@[j]);
            lemma_split_last_sep_none(u);
        }
        return None;
    }
    proof {
        assert(forall|j: int| 0 <= j < u.len() ==> u[j] == trimmed@[j]);
        lemma_split_last_sep_at(u, k as int);
    }
    let parent = trimmed.as_str().substring_char(0, k - 1);
    proof {
        assert(parent@ =~= u.take(k - 1));
    }
    if parent.unicode_len() == 0 {
        return None;
    }
    if parent.unicode_len() == 2 && parent.get_char(1) == ':' {
        let mut with_sep = parent.to_owned();
        with_sep.append("\\");
        proof {
            reveal_strlit("\\");
            assert("\\"@ =~= seq!['\\']);
        }
        return Some(with_sep);
    }
    Some(parent.to_owned())
}

} // verus!
