//! The search engine: score catalog entries against a normalized query
//! under a match mode, blend in the history store's signals, and rank.
//!
//! An entry's textual score comes from its display name; when the query
//! contains a dot it is also matched against the file name of the launch
//! target, taking the better score, so `app.exe` finds an entry named `App`
//! with target `App.exe`. The combined score adds weighted history counts;
//! the listing is ordered by score, then recency, then name, and the
//! position in the catalog settles full ties.

use vstd::prelude::*;

use crate::config::SearchModeConfig;
use crate::history::{HistoryStore, HistoryData, global_count_spec, query_count_spec,
    folder_count_spec, last_launched_spec, spec_min, recent_listing_ok};
use crate::indexer::AppEntry;
use crate::query::{normalize_query, normalize_spec};
use crate::rank::{RankItem, lemma_perm_facts, rank_le, rank_lt, sort_rank_items};
use crate::text::{code_points, is_prefix, lower_of, occurs_at, chars_starts_with, chars_find,
    lex_lt, str_chars, str_code_points, str_eq, to_lowercase_of};
use crate::ui_types::SearchResult;

verus! {

#[derive(Debug, Clone, Copy, PartialEq, Eq, Structural)]
pub enum SearchMode {
    Prefix,
    Substring,
    Fuzzy,
}

/// The search mode a configuration value selects.
pub fn to_search_mode(mode: SearchModeConfig) -> (r: SearchMode)
    ensures
        mode == SearchModeConfig::Prefix ==> r == SearchMode::Prefix,
        mode == SearchModeConfig::Substring ==> r == SearchMode::Substring,
        mode == SearchModeConfig::Fuzzy ==> r == SearchMode::Fuzzy,
{
    match mode {
        SearchModeConfig::Prefix => SearchMode::Prefix,
        SearchModeConfig::Substring => SearchMode::Substring,
        SearchModeConfig::Fuzzy => SearchMode::Fuzzy,
    }
}

/// What the Skim-style fuzzy scorer returns for a choice and a pattern; the
/// score is a function of the two strings alone.
pub uninterp spec fn skim_score(choice: Seq<char>, pattern: Seq<char>) -> Option<i64>;

/// Relies on fuzzy_matcher's `SkimMatcherV2` under its default
/// configuration: `fuzzy_match` scores a choice against a pattern, `None`
/// when they do not match, and depends on the two strings alone.
#[verifier::external_body]
pub(crate) fn fuzzy_match_score(choice: &str, pattern: &str) -> (r: Option<i64>)
    ensures
        r == skim_score(choice@, pattern@),
{
    fuzzy_matcher::FuzzyMatcher::fuzzy_match(
        &fuzzy_matcher::skim::SkimMatcherV2::default(),
        choice,
        pattern,
    )
}

/// Clip an index or length into `i64` range.
pub open spec fn clamp_i64(n: int) -> int {
    if n > i64::MAX {
        i64::MAX as int
    } else {
        n
    }
}

/// Clip a mathematical sum into `i64`.
pub open spec fn sat_i64(x: int) -> i64 {
    if x > i64::MAX {
        i64::MAX
    } else if x < i64::MIN {
        i64::MIN
    } else {
        x as i64
    }
}

/// Saturating addition in `i64`, written with checked arithmetic.
fn sat_add_exec(a: i64, b: i64) -> (r: i64)
    ensures
        r == sat_i64(a + b),
{
    match a.checked_add(b) {
        Some(v) => v,
        None => if b > 0 {
            i64::MAX
        } else {
            i64::MIN
        },
    }
}

/// Saturating subtraction in `i64`, written with checked arithmetic.
fn sat_sub_exec(a: i64, b: i64) -> (r: i64)
    ensures
        r == sat_i64(a - b),
{
    match a.checked_sub(b) {
        Some(v) => v,
        None => if b > 0 {
            i64::MIN
        } else {
            i64::MAX
        },
    }
}

/// The first position at or after `i` where `q` occurs in `s`.
pub open spec fn find_at(s: Seq<char>, q: Seq<char>, i: int) -> Option<int>
    decreases s.len() + 1 - i,
{
    if !(0 <= i && i + q.len() <= s.len()) {
        None
    } else if occurs_at(s, q, i) {
        Some(i)
    } else {
        find_at(s, q, i + 1)
    }
}

/// The first occurrence of `q` in `s`.
pub open spec fn first_occ(s: Seq<char>, q: Seq<char>) -> Option<int> {
    find_at(s, q, 0)
}

proof fn lemma_find_at_some(s: Seq<char>, q: Seq<char>, k: int, i: int)
    requires
        0 <= k <= i,
        occurs_at(s, q, i),
        forall|j: int| k <= j < i ==> !occurs_at(s, q, j),
    ensures
        find_at(s, q, k) == Some(i),
    decreases i - k,
{
    if k < i {
        lemma_find_at_some(s, q, k + 1, i);
    }
}

proof fn lemma_find_at_none(s: Seq<char>, q: Seq<char>, k: int)
    requires
        0 <= k,
        forall|j: int| !occurs_at(s, q, j),
    ensures
        find_at(s, q, k) is None,
    decreases s.len() + 1 - k,
{
    if 0 <= k && k + q.len() <= s.len() {
        lemma_find_at_none(s, q, k + 1);
    }
}

/// The base score of a lowercased name against a normalized query, under a
/// match mode. Prefix matches score by shortness of the name, substring
/// matches by earliness of the occurrence, fuzzy matches by the Skim score.
pub open spec fn base_score(mode: SearchMode, lower_name: Seq<char>, q: Seq<char>) -> Option<i64> {
    match mode {
        SearchMode::Prefix => if is_prefix(q, lower_name) {
            Some(sat_i64(10000 - clamp_i64(lower_name.len() as int)))
        } else {
            None
        },
        SearchMode::Substring => match first_occ(lower_name, q) {
            Some(i) => Some(sat_i64(5000 - clamp_i64(i))),
            None => None,
        },
        SearchMode::Fuzzy => skim_score(lower_name, q),
    }
}

/// Score one lowercased name against the query.
fn match_score(mode: SearchMode, lower_name: &str, query: &str) -> (r: Option<i64>)
    ensures
        r == base_score(mode, lower_name@, query@),
{
    match mode {
        SearchMode::Prefix => {
            let name_chars = str_chars(lower_name);
            let q_chars = str_chars(query);
            if chars_starts_with(&name_chars, &q_chars) {
                let n = name_chars.len();
                let ln: i64 = if (n as u64) > 0x7fff_ffff_ffff_ffffu64 {
                    i64::MAX
                } else {
                    n as i64
                };
                proof {
                    assert(is_prefix(query@, lower_name@));
                    assert(ln as int == clamp_i64(lower_name@.len() as int));
                }
                Some(sat_sub_exec(10000, ln))
            } else {
                assert(!is_prefix(query@, lower_name@));
                None
            }
        },
        SearchMode::Substring => {
            let name_chars = str_chars(lower_name);
            let q_chars = str_chars(query);
            match chars_find(&name_chars, &q_chars) {
                Some(i) => {
                    proof {
                        lemma_find_at_some(lower_name@, query@, 0, i as int);
                    }
                    let li: i64 = if (i as u64) > 0x7fff_ffff_ffff_ffffu64 {
                        i64::MAX
                    } else {
                        i as i64
                    };
                    Some(sat_sub_exec(5000, li))
                },
                None => {
                    proof {
                        lemma_find_at_none(lower_name@, query@, 0);
                    }
                    None
                },
            }
        },
        SearchMode::Fuzzy => fuzzy_match_score(lower_name, query),
    }
}

/// A path separator, in either spelling.
pub open spec fn is_sep(c: char) -> bool {
    c == '\\' || c == '/'
}

/// The file name of a path: everything after the last separator.
pub open spec fn file_name_of(p: Seq<char>) -> Seq<char>
    decreases p.len(),
{
    if p.len() == 0 {
        p
    } else if is_sep(p.last()) {
        Seq::empty()
    } else {
        file_name_of(p.drop_last()).push(p.last())
    }
}

proof fn lemma_file_name_at(p: Seq<char>, k: int)
    requires
        -1 <= k < p.len(),
        k >= 0 ==> is_sep(p[k]),
        forall|j: int| k < j < p.len() ==> !is_sep(p[j]),
    ensures
        file_name_of(p) == p.skip(k + 1),
    decreases p.len(),
{
    if p.len() == k + 1 {
        if k == -1 {
            assert(p.skip(0) =~= p);
        } else {
            assert(is_sep(p.last()));
            assert(p.skip(k + 1) =~= Seq::<char>::empty());
        }
    } else {
        assert(!is_sep(p.last()));
        lemma_file_name_at(p.drop_last(), k);
        assert(p.drop_last().skip(k + 1).push(p.last()) =~= p.skip(k + 1));
    }
}

/// The file name of a launch target path.
fn file_name_str(path: &str) -> (r: String)
    ensures
        r@ == file_name_of(path@),
{
    let n = path.unicode_len();
    let mut k = n;
    let mut stop = false;
    while !stop
        invariant
            n == path@.len(),
            k <= n,
            forall|j: int| k <= j < n ==> !is_sep(path@[j]),
            stop ==> k == 0 || is_sep(path@[k - 1]),
        decreases 2 * k + (if stop {
            0int
        } else {
            1int
        }),
    {
        if k == 0 {
            stop = true;
        } else {
            let c = path.get_char(k - 1);
            if c == '\\' || c == '/' {
                stop = true;
            } else {
                k = k - 1;
            }
        }
    }
    proof {
        lemma_file_name_at(path@, k - 1);
    }
    let r = path.substring_char(k, n).to_owned();
    assert(r@ =~= path@.skip(k as int));
    r
}

/// Whether the normalized query contains a literal dot, which switches on
/// extension-aware matching.
pub open spec fn has_dot(q: Seq<char>) -> bool {
    exists|i: int| 0 <= i < q.len() && q[i] == '.'
}

fn contains_dot(s: &str) -> (r: bool)
    ensures
        r == has_dot(s@),
{
    let n = s.unicode_len();
    let mut i: usize = 0;
    while i < n
        invariant
            n == s@.len(),
            i <= n,
            forall|j: int| 0 <= j < i ==> s@[j] != '.',
        decreases n - i,
    {
        if s.get_char(i) == '.' {
            return true;
        }
        i = i + 1;
    }
    false
}

/// The textual score of an entry: its display name's score, and, for a
/// query with a dot, also the score of the target's lowercased file name,
/// whichever is higher.
pub open spec fn entry_base_score(mode: SearchMode, e: AppEntry, q: Seq<char>) -> Option<i64> {
    let name_score = base_score(mode, lower_of(e.name@), q);
    if has_dot(q) {
        let f_score = base_score(mode, lower_of(file_name_of(e.target_path@)), q);
        match (name_score, f_score) {
            (Some(a), Some(b)) => Some(
                if a >= b {
                    a
                } else {
                    b
                },
            ),
            (Some(a), None) => Some(a),
            (None, Some(b)) => Some(b),
            (None, None) => None,
        }
    } else {
        name_score
    }
}

/// Whether the entry at `i` matches the query at all.
pub open spec fn entry_matches(entries: Seq<AppEntry>, q: Seq<char>, mode: SearchMode, i: int) -> bool {
    entry_base_score(mode, entries[i], q) is Some
}

/// The combined score: the base score plus five times the global launch
/// count, twenty times the per-query launch count, and, for folders, five
/// times the expansion count; each addition saturates in `i64`. The
/// per-query tally is looked up under the normalized form of the already
/// normalized query, mirroring the store's accessor, which normalizes its
/// argument itself.
pub open spec fn entry_score(entries: Seq<AppEntry>, d: HistoryData, q: Seq<char>, mode: SearchMode, i: int) -> i64 {
    let e = entries[i];
    let base = entry_base_score(mode, e, q)->Some_0;
    let g = (global_count_spec(d, e.target_path@) as int) * 5;
    let qc = (query_count_spec(d, normalize_spec(q), e.target_path@) as int) * 20;
    let fb = if e.is_folder {
        (folder_count_spec(d, e.target_path@) as int) * 5
    } else {
        0
    };
    sat_i64(sat_i64(sat_i64(base + g) as int + qc) as int + fb)
}

/// The recency used as the second sort key.
pub open spec fn entry_last(entries: Seq<AppEntry>, d: HistoryData, i: int) -> u64 {
    match last_launched_spec(d, entries[i].target_path@) {
        Some(t) => t,
        None => 0,
    }
}

/// The case-folded code points of the entry's name, the third sort key.
pub open spec fn entry_name_key(entries: Seq<AppEntry>, i: int) -> Seq<u32> {
    code_points(lower_of(entries[i].name@))
}

/// The entry at `i` ranks strictly before the entry at `j`: higher combined
/// score, then more recent launch, then lexicographically earlier folded
/// name, then earlier catalog position.
pub open spec fn search_before(
    entries: Seq<AppEntry>,
    d: HistoryData,
    q: Seq<char>,
    mode: SearchMode,
    i: int,
    j: int,
) -> bool {
    let si = entry_score(entries, d, q, mode, i);
    let sj = entry_score(entries, d, q, mode, j);
    let li = entry_last(entries, d, i);
    let lj = entry_last(entries, d, j);
    let ni = entry_name_key(entries, i);
    let nj = entry_name_key(entries, j);
    if si != sj {
        si > sj
    } else if li != lj {
        li > lj
    } else if lex_lt(ni, nj) {
        true
    } else if lex_lt(nj, ni) {
        false
    } else {
        i < j
    }
}

/// The result row an entry produces.
pub open spec fn result_of_entry(e: AppEntry) -> SearchResult {
    SearchResult { name: e.name, path: e.target_path, is_folder: e.is_folder, is_error: false }
}

/// What a search listing promises: distinct matching entries only; as many
/// of them as fit the cap, and all of them when they all fit; ordered by
/// `search_before`; and no excluded matching entry ranks before an included
/// one.
pub open spec fn search_listing_ok(
    entries: Seq<AppEntry>,
    d: HistoryData,
    q: Seq<char>,
    mode: SearchMode,
    maxr: int,
    order: Seq<int>,
    out: Seq<SearchResult>,
) -> bool {
    &&& order.no_duplicates()
    &&& order.len() <= maxr
    &&& (forall|k: int| 0 <= k < order.len() ==> 0 <= #[trigger] order[k] < entries.len()
        && entry_matches(entries, q, mode, order[k]))
    &&& (order.len() < maxr ==> (forall|i: int|
        0 <= i < entries.len() && entry_matches(entries, q, mode, i) ==> order.contains(i)))
    &&& (forall|k1: int, k2: int| 0 <= k1 < k2 < order.len() ==> search_before(
        entries,
        d,
        q,
        mode,
        #[trigger] order[k1],
        #[trigger] order[k2],
    ))
    &&& (forall|i: int, k: int|
        #![trigger order.contains(i), order[k]]
        0 <= i < entries.len() && entry_matches(entries, q, mode, i) && !order.contains(i) && 0
            <= k < order.len() ==> search_before(entries, d, q, mode, order[k], i))
    &&& out.len() == order.len()
    &&& (forall|k: int| 0 <= k < order.len() ==> out[k] == result_of_entry(
        entries[#[trigger] order[k]],
    ))
}

/// The catalog entry launched by `p`: the last one with that target path,
/// as a later entry shadows an earlier one with the same target.
pub open spec fn entry_for_path(entries: Seq<AppEntry>, p: Seq<char>) -> Option<int>
    decreases entries.len(),
{
    if entries.len() == 0 {
        None
    } else if entries.last().target_path@ == p {
        Some(entries.len() - 1)
    } else {
        entry_for_path(entries.drop_last(), p)
    }
}

/// The result rows for a list of recently launched paths: each path that is
/// still in the catalog becomes a row, the others are dropped, order kept.
pub open spec fn map_paths_to_results(entries: Seq<AppEntry>, paths: Seq<String>) -> Seq<
    SearchResult,
>
    decreases paths.len(),
{
    if paths.len() == 0 {
        Seq::empty()
    } else {
        let rest = map_paths_to_results(entries, paths.skip(1));
        match entry_for_path(entries, paths[0]@) {
            Some(i) => seq![result_of_entry(entries[i])] + rest,
            None => rest,
        }
    }
}

proof fn lemma_map_paths_snoc(entries: Seq<AppEntry>, s: Seq<String>, x: String)
    ensures
        map_paths_to_results(entries, s.push(x)) == map_paths_to_results(entries, s) + (
        match entry_for_path(entries, x@) {
            Some(i) => seq![result_of_entry(entries[i])],
            None => Seq::<SearchResult>::empty(),
        }),
    decreases s.len(),
{
    let s2 = s.push(x);
    if s.len() == 0 {
        assert(s2[0] == x);
        assert(s2.skip(1) =~= Seq::<String>::empty());
        assert(map_paths_to_results(entries, Seq::<String>::empty()) == Seq::<
            SearchResult,
        >::empty());
        match entry_for_path(entries, x@) {
            Some(i) => {
                assert(map_paths_to_results(entries, s2) =~= map_paths_to_results(entries, s)
                    + seq![result_of_entry(entries[i])]);
            },
            None => {
                assert(map_paths_to_results(entries, s2) =~= map_paths_to_results(entries, s));
            },
        }
    } else {
        assert(s2[0] == s[0]);
        assert(s2.skip(1) =~= s.skip(1).push(x));
        lemma_map_paths_snoc(entries, s.skip(1), x);
        match entry_for_path(entries, x@) {
            Some(i) => {
                assert(map_paths_to_results(entries, s2) =~= map_paths_to_results(entries, s)
                    + seq![result_of_entry(entries[i])]);
            },
            None => {
                assert(map_paths_to_results(entries, s2) =~= map_paths_to_results(entries, s));
            },
        }
    }
}

proof fn lemma_entry_for_path_at(entries: Seq<AppEntry>, p: Seq<char>, i: int)
    requires
        0 <= i < entries.len(),
        entries[i].target_path@ == p,
        forall|j: int| i < j < entries.len() ==> entries[j].target_path@ != p,
    ensures
        entry_for_path(entries, p) == Some(i),
    decreases entries.len(),
{
    if i == entries.len() - 1 {
    } else {
        assert(entries.last().target_path@ != p);
        lemma_entry_for_path_at(entries.drop_last(), p, i);
    }
}

proof fn lemma_entry_for_path_none(entries: Seq<AppEntry>, p: Seq<char>)
    requires
        forall|j: int| 0 <= j < entries.len() ==> entries[j].target_path@ != p,
    ensures
        entry_for_path(entries, p) is None,
    decreases entries.len(),
{
    if entries.len() > 0 {
        lemma_entry_for_path_none(entries.drop_last(), p);
    }
}

fn find_entry_by_path(entries: &Vec<AppEntry>, p: &str) -> (r: Option<usize>)
    ensures
        r matches Some(i) ==> entry_for_path(entries@, p@) == Some(i as int) && i < entries@.len(),
        r is None <==> entry_for_path(entries@, p@) is None,
{
    let n = entries.len();
    let mut k = n;
    while k > 0
        invariant
            n == entries@.len(),
            k <= n,
            forall|j: int| k <= j < n ==> entries@[j].target_path@ != p@,
        decreases k,
    {
        if str_eq(entries[k - 1].target_path.as_str(), p) {
            proof {
                lemma_entry_for_path_at(entries@, p@, k - 1);
            }
            return Some(k - 1);
        }
        k = k - 1;
    }
    proof {
        lemma_entry_for_path_none(entries@, p@);
    }
    None
}

/// The search engine: an immutable catalog snapshot with a precomputed
/// lowercase-name array.
pub struct SearchEngine {
    entries: Vec<AppEntry>,
    lower_names: Vec<String>,
}

impl SearchEngine {
    pub closed spec fn spec_entries(self) -> Seq<AppEntry> {
        self.entries@
    }

    /// The lowercase-name array mirrors the catalog.
    pub closed spec fn wf(self) -> bool {
        self.lower_names@.len() == self.entries@.len() && forall|i: int|
            0 <= i < self.entries@.len() ==> self.lower_names@[i]@ == lower_of(
                #[trigger] self.entries@[i].name@,
            )
    }

    /// Build an engine over a catalog snapshot.
    pub fn new(entries: Vec<AppEntry>) -> (r: SearchEngine)
        ensures
            r.wf(),
            r.spec_entries() == entries@,
    {
        let n = entries.len();
        let mut lower_names: Vec<String> = Vec::new();
        let mut i: usize = 0;
        while i < n
            invariant
                n == entries@.len(),
                i <= n,
                lower_names@.len() == i,
                forall|j: int| 0 <= j < i ==> lower_names@[j]@ == lower_of(
                    #[trigger] entries@[j].name@,
                ),
            decreases n - i,
        {
            lower_names.push(to_lowercase_of(entries[i].name.as_str()));
            i = i + 1;
        }
        SearchEngine { entries, lower_names }
    }

    /// The catalog this engine serves.
    pub fn entries(&self) -> (r: &[AppEntry])
        ensures
            r@ == self.spec_entries(),
    {
        self.entries.as_slice()
    }

    /// Score, rank and cap the catalog against a query. An empty query
    /// yields an empty listing regardless of catalog size.
    pub fn search(
        &self,
        query: &str,
        max_results: usize,
        history: &HistoryStore,
        mode: SearchMode,
    ) -> (r: Vec<SearchResult>)
        requires
            self.wf(),
            history.wf(),
        ensures
            normalize_spec(query@).len() == 0 ==> r@ == Seq::<SearchResult>::empty(),
            normalize_spec(query@).len() > 0 ==> exists|order: Seq<int>| search_listing_ok(
                self.spec_entries(),
                history.spec_data(),
                normalize_spec(query@),
                mode,
                max_results as int,
                order,
                r@,
            ),
    {
        let nq = normalize_query(query);
        if nq.as_str().is_empty() {
            let empty: Vec<SearchResult> = Vec::new();
            assert(empty@ =~= Seq::<SearchResult>::empty());
            return empty;
        }
        let ghost ev = self.entries@;
        let ghost dv = history.spec_data();
        let ghost qv = normalize_spec(query@);
        let dotted = contains_dot(nq.as_str());
        let n = self.entries.len();
        let mut items: Vec<RankItem> = Vec::new();
        let mut i: usize = 0;
        while i < n
            invariant
                self.wf(),
                history.wf(),
                dv == history.spec_data(),
                ev == self.entries@,
                qv == nq@,
                dotted == has_dot(qv),
                n == ev.len(),
                i <= n,
                forall|k1: int, k2: int| 0 <= k1 < k2 < items@.len()
                    ==> (#[trigger] items@[k1]).idx < (#[trigger] items@[k2]).idx,
                forall|k: int| 0 <= k < items@.len() ==> (#[trigger] items@[k]).idx < i
                    && entry_matches(ev, qv, mode, items@[k].idx as int)
                    && items@[k].primary == entry_score(ev, dv, qv, mode, items@[k].idx as int)
                    && items@[k].secondary == entry_last(ev, dv, items@[k].idx as int)
                    && items@[k].name_key@ == entry_name_key(ev, items@[k].idx as int),
                forall|j: int| 0 <= j < i && entry_matches(ev, qv, mode, j) ==> exists|k: int|
                    0 <= k < items@.len() && (#[trigger] items@[k]).idx == j,
            decreases n - i,
        {
            let name_score = match_score(mode, self.lower_names[i].as_str(), nq.as_str());
            let score_opt: Option<i64> = if dotted {
                let fname = file_name_str(self.entries[i].target_path.as_str());
                let lf = to_lowercase_of(fname.as_str());
                let f_score = match_score(mode, lf.as_str(), nq.as_str());
                match (name_score, f_score) {
                    (Some(a), Some(b)) => Some(
                        if a >= b {
                            a
                        } else {
                            b
                        },
                    ),
                    (Some(a), None) => Some(a),
                    (None, Some(b)) => Some(b),
                    (None, None) => None,
                }
            } else {
                name_score
            };
            proof {
                assert(score_opt == entry_base_score(mode, ev[i as int], qv));
            }
            match score_opt {
                Some(base) => {
                    let target = self.entries[i].target_path.as_str();
                    let gc = history.global_count(target);
                    let qc = history.query_count(nq.as_str(), target);
                    let fc = if self.entries[i].is_folder {
                        history.folder_expansion_count(target)
                    } else {
                        0
                    };
                    let last = match history.last_launched(target) {
                        Some(t) => t,
                        None => 0,
                    };
                    let combined = sat_add_exec(
                        sat_add_exec(sat_add_exec(base, (gc as i64) * 5), (qc as i64) * 20),
                        (fc as i64) * 5,
                    );
                    proof {
                        assert(combined == entry_score(ev, dv, qv, mode, i as int));
                    }
                    let name_cp = str_code_points(self.lower_names[i].as_str());
                    let ghost items0 = items@;
                    items.push(
                        RankItem { primary: combined, secondary: last, name_key: name_cp, idx: i },
                    );
                    proof {
                        assert forall|j: int|
                            0 <= j < i + 1 && entry_matches(ev, qv, mode, j) implies exists|k: int|
                            0 <= k < items@.len() && (#[trigger] items@[k]).idx == j by {
                            if j < i {
                                let k = choose|k: int|
                                    0 <= k < items0.len() && (#[trigger] items0[k]).idx == j;
                                assert(items@[k].idx == j);
                            } else {
                                assert(items@[items@.len() - 1].idx == j);
                            }
                        }
                    }
                },
                None => {
                    proof {
                        assert forall|j: int|
                            0 <= j < i + 1 && entry_matches(ev, qv, mode, j) implies exists|k: int|
                            0 <= k < items@.len() && (#[trigger] items@[k]).idx == j by {
                            assert(j != i);
                            let k = choose|k: int|
                                0 <= k < items@.len() && (#[trigger] items@[k]).idx == j;
                        }
                    }
                },
            }
            i = i + 1;
        }
        let ghost items0 = items@;
        let sorted = sort_rank_items(items);
        proof {
            assert(forall|a: int, b: int| 0 <= a < b < items0.len() ==> items0[a].idx
                != items0[b].idx);
            lemma_perm_facts(items0, sorted@);
            assert forall|k: int| 0 <= k < sorted@.len() implies {
                let it = #[trigger] sorted@[k];
                &&& it.idx < n
                &&& entry_matches(ev, qv, mode, it.idx as int)
                &&& it.primary == entry_score(ev, dv, qv, mode, it.idx as int)
                &&& it.secondary == entry_last(ev, dv, it.idx as int)
                &&& it.name_key@ == entry_name_key(ev, it.idx as int)
            } by {
                assert(items0.contains(sorted@[k]));
            }
        }
        let mut out: Vec<SearchResult> = Vec::new();
        let mut k: usize = 0;
        while k < sorted.len() && k < max_results
            invariant
                ev == self.entries@,
                n == ev.len(),
                sorted@.len() == items0.len(),
                forall|t: int| 0 <= t < sorted@.len() ==> (#[trigger] sorted@[t]).idx < n,
                k <= sorted@.len(),
                k <= max_results,
                out@.len() == k,
                forall|t: int| 0 <= t < k ==> out@[t] == result_of_entry(
                    ev[(#[trigger] sorted@[t]).idx as int],
                ),
            decreases sorted@.len() - k,
        {
            let idx = sorted[k].idx;
            let e = &self.entries[idx];
            out.push(
                SearchResult {
                    name: e.name.clone(),
                    path: e.target_path.clone(),
                    is_folder: e.is_folder,
                    is_error: false,
                },
            );
            k = k + 1;
        }
        proof {
            let sortedv = sorted@;
            let order = Seq::new(out@.len() as nat, |t: int| sortedv[t].idx as int);
            assert(order.no_duplicates()) by {
                assert forall|t1: int, t2: int|
                    0 <= t1 < order.len() && 0 <= t2 < order.len() && t1 != t2 implies order[t1]
                    != order[t2] by {
                    if t1 < t2 {
                        assert(sortedv[t1].idx != sortedv[t2].idx);
                    } else {
                        assert(sortedv[t2].idx != sortedv[t1].idx);
                    }
                }
            }
            assert forall|k1: int, k2: int| 0 <= k1 < k2 < order.len() implies search_before(
                ev,
                dv,
                qv,
                mode,
                #[trigger] order[k1],
                #[trigger] order[k2],
            ) by {
                assert(rank_le(sortedv[k1], sortedv[k2]));
                assert(sortedv[k1].idx != sortedv[k2].idx);
                if !rank_lt(sortedv[k1], sortedv[k2]) {
                    crate::rank::lemma_rank_connected(sortedv[k1], sortedv[k2]);
                }
            }
            if order.len() < max_results {
                assert forall|j: int|
                    0 <= j < ev.len() && entry_matches(ev, qv, mode, j) implies order.contains(
                    j,
                ) by {
                    let kk = choose|kk: int|
                        0 <= kk < items0.len() && (#[trigger] items0[kk]).idx == j;
                    assert(items0.contains(items0[kk]));
                    assert(sortedv.contains(items0[kk]));
                    let pos = choose|pos: int|
                        0 <= pos < sortedv.len() && sortedv[pos] == items0[kk];
                    assert(order.len() == sortedv.len());
                    assert(order[pos] == j);
                }
            }
            assert forall|j: int, kk: int|
                #![trigger order.contains(j), order[kk]]
                0 <= j < ev.len() && entry_matches(ev, qv, mode, j) && !order.contains(j) && 0 <= kk
                    < order.len() implies search_before(ev, dv, qv, mode, order[kk], j) by {
                let t = choose|t: int| 0 <= t < items0.len() && (#[trigger] items0[t]).idx == j;
                assert(items0.contains(items0[t]));
                assert(sortedv.contains(items0[t]));
                let pos = choose|pos: int| 0 <= pos < sortedv.len() && sortedv[pos] == items0[t];
                assert(sortedv[pos].idx == j);
                if pos < order.len() {
                    assert(order[pos] == j);
                    assert(order.contains(j));
                }
                assert(pos >= order.len());
                assert(rank_le(sortedv[kk], sortedv[pos]));
                assert(sortedv[kk].idx != sortedv[pos].idx);
                if !rank_lt(sortedv[kk], sortedv[pos]) {
                    crate::rank::lemma_rank_connected(sortedv[kk], sortedv[pos]);
                }
            }
            assert(search_listing_ok(ev, dv, qv, mode, max_results as int, order, out@));
            assert(search_listing_ok(
                self.spec_entries(),
                history.spec_data(),
                normalize_spec(query@),
                mode,
                max_results as int,
                order,
                out@,
            ));
            assert(exists|ord: Seq<int>| search_listing_ok(
                self.spec_entries(),
                history.spec_data(),
                normalize_spec(query@),
                mode,
                max_results as int,
                ord,
                out@,
            ));
        }
        out
    }

    /// The rows shown for an empty query: the most recently launched targets
    /// that are still in the catalog, most recent first, capped.
    pub fn recent_history(&self, history: &HistoryStore, max_results: usize) -> (r: Vec<
        SearchResult,
    >)
        ensures
            exists|order: Seq<int>, paths: Seq<String>|
                recent_listing_ok(
                    history.spec_data().global@,
                    history.spec_max_history_display() as int,
                    order,
                    paths,
                ) && r@ == map_paths_to_results(
                    self.spec_entries(),
                    paths.take(spec_min(max_results as int, paths.len() as int)),
                ),
    {
        let paths = history.recent_launches();
        let ghost ev = self.entries@;
        let lim = if paths.len() < max_results {
            paths.len()
        } else {
            max_results
        };
        let mut out: Vec<SearchResult> = Vec::new();
        let mut k: usize = 0;
        proof {
            assert(paths@.take(0) =~= Seq::<String>::empty());
        }
        while k < lim
            invariant
                ev == self.entries@,
                lim <= paths@.len(),
                k <= lim,
                out@ == map_paths_to_results(ev, paths@.take(k as int)),
            decreases lim - k,
        {
            let ghost pre = paths@.take(k as int);
            proof {
                lemma_map_paths_snoc(ev, pre, paths@[k as int]);
                assert(paths@.take(k + 1) =~= pre.push(paths@[k as int]));
            }
            match find_entry_by_path(&self.entries, paths[k].as_str()) {
                Some(i) => {
                    let e = &self.entries[i];
                    let ghost out0 = out@;
                    out.push(
                        SearchResult {
                            name: e.name.clone(),
                            path: e.target_path.clone(),
                            is_folder: e.is_folder,
                            is_error: false,
                        },
                    );
                    proof {
                        assert(out@ =~= out0 + seq![result_of_entry(ev[entry_for_path(
                            ev,
                            paths@[k as int]@,
                        )->Some_0])]);
                    }
                },
                None => {},
            }
            k = k + 1;
        }
        proof {
            let g = history.spec_data().global@;
            let cap = history.spec_max_history_display() as int;
            let order = choose|o: Seq<int>| recent_listing_ok(g, cap, o, paths@);
            assert(recent_listing_ok(g, cap, order, paths@));
            assert(lim as int == spec_min(max_results as int, paths@.len() as int));
        }
        out
    }
}

} // verus!
