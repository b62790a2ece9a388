//! The history store: launch counts, recency, per-query launch tallies and
//! folder-expansion counts, with bounded growth through top-N pruning.
//!
//! The maps are association lists with unique keys; every accessor and
//! mutation is specified pointwise over the map they denote. Reading and
//! writing the persisted file is I/O and stays outside this crate; the store
//! offers `encode` and `decode` for the file's bytes.

use vstd::prelude::*;

use crate::query::{normalize_query, normalize_spec};
use crate::rank::{RankItem, lemma_perm_facts, rank_lt, sort_rank_items};
use crate::text::str_eq;

verus! {

/// Per-target usage: how often it was launched and when last.
#[derive(Debug, Clone, Copy, PartialEq, Eq, Structural)]
pub struct GlobalEntry {
    pub launch_count: u32,
    pub last_launched: u64,
}

/// The persisted history state: three association maps keyed by target path
/// (or by normalized query, then target path).
#[derive(Debug, Clone)]
pub struct HistoryData {
    pub global: Vec<(String, GlobalEntry)>,
    pub query: Vec<(String, Vec<(String, u32)>)>,
    pub folder_expansion: Vec<(String, u32)>,
}

/// Whether `m` has an entry under key `k`.
pub open spec fn assoc_has<V>(m: Seq<(String, V)>, k: Seq<char>) -> bool {
    exists|i: int| 0 <= i < m.len() && m[i].0@ == k
}

/// The first value stored under key `k`.
pub open spec fn assoc_get<V>(m: Seq<(String, V)>, k: Seq<char>) -> Option<V>
    decreases m.len(),
{
    if m.len() == 0 {
        None
    } else if m[0].0@ == k {
        Some(m[0].1)
    } else {
        assoc_get(m.skip(1), k)
    }
}

/// No two entries share a key.
pub open spec fn assoc_keys_unique<V>(m: Seq<(String, V)>) -> bool {
    forall|i: int, j: int| 0 <= i < j < m.len() ==> m[i].0@ != m[j].0@
}

pub proof fn lemma_assoc_get_at<V>(m: Seq<(String, V)>, k: Seq<char>, i: int)
    requires
        0 <= i < m.len(),
        m[i].0@ == k,
        forall|j: int| 0 <= j < i ==> m[j].0@ != k,
    ensures
        assoc_get(m, k) == Some(m[i].1),
    decreases i,
{
    if i > 0 {
        assert(m[0].0@ != k);
        lemma_assoc_get_at(m.skip(1), k, i - 1);
        assert(m.skip(1)[i - 1] == m[i]);
        assert(forall|j: int| 0 <= j < i - 1 ==> m.skip(1)[j] == m[j + 1]);
    }
}

pub proof fn lemma_assoc_get_none<V>(m: Seq<(String, V)>, k: Seq<char>)
    requires
        forall|j: int| 0 <= j < m.len() ==> m[j].0@ != k,
    ensures
        assoc_get(m, k) is None,
    decreases m.len(),
{
    if m.len() > 0 {
        lemma_assoc_get_none(m.skip(1), k);
    }
}

/// Updating position `i` (whose key stays the same) changes exactly that
/// key's value.
pub proof fn lemma_assoc_get_update<V>(m: Seq<(String, V)>, i: int, pair: (String, V), p: Seq<char>)
    requires
        0 <= i < m.len(),
        pair.0@ == m[i].0@,
        forall|j: int| 0 <= j < i ==> m[j].0@ != m[i].0@,
    ensures
        assoc_get(m.update(i, pair), p) == (if p == pair.0@ {
            Some(pair.1)
        } else {
            assoc_get(m, p)
        }),
    decreases m.len(),
{
    let m2 = m.update(i, pair);
    if i == 0 {
        assert(m2[0] == pair);
        if p != pair.0@ {
            assert(m2.skip(1) =~= m.skip(1));
        }
    } else {
        assert(m2[0] == m[0]);
        assert(m2.skip(1) =~= m.skip(1).update(i - 1, pair));
        assert(m.skip(1)[i - 1] == m[i]);
        assert(forall|j: int| 0 <= j < i - 1 ==> m.skip(1)[j] == m[j + 1]);
        lemma_assoc_get_update(m.skip(1), i - 1, pair, p);
    }
}

/// Appending a fresh key changes exactly that key's value.
pub proof fn lemma_assoc_get_push<V>(m: Seq<(String, V)>, pair: (String, V), p: Seq<char>)
    requires
        !assoc_has(m, pair.0@),
    ensures
        assoc_get(m.push(pair), p) == (if p == pair.0@ {
            Some(pair.1)
        } else {
            assoc_get(m, p)
        }),
    decreases m.len(),
{
    let m2 = m.push(pair);
    if m.len() == 0 {
        assert(m2.len() == 1);
        assert(m2[0] == pair);
        if p != pair.0@ {
            assert(m2.skip(1) =~= Seq::<(String, V)>::empty());
        }
    } else {
        if m[0].0@ == pair.0@ {
            assert(assoc_has(m, pair.0@)) by {
                assert(0 <= 0 < m.len() && m[0].0@ == pair.0@);
            }
        }
        assert(m[0].0@ != pair.0@);
        assert(m2[0] == m[0]);
        assert(m2.skip(1) =~= m.skip(1).push(pair));
        assert(!assoc_has(m.skip(1), pair.0@)) by {
            if assoc_has(m.skip(1), pair.0@) {
                let j = choose|j: int| 0 <= j < m.skip(1).len() && m.skip(1)[j].0@ == pair.0@;
                assert(m[j + 1].0@ == pair.0@);
                assert(assoc_has(m, pair.0@)) by {
                    assert(0 <= j + 1 < m.len() && m[j + 1].0@ == pair.0@);
                }
            }
        }
        lemma_assoc_get_push(m.skip(1), pair, p);
        if p == m[0].0@ {
            assert(assoc_get(m2, p) == Some(m[0].1));
            assert(assoc_get(m, p) == Some(m[0].1));
        } else {
            assert(assoc_get(m2, p) == assoc_get(m2.skip(1), p));
            assert(assoc_get(m, p) == assoc_get(m.skip(1), p));
            assert(assoc_get(m2.skip(1), p) == assoc_get(m.skip(1).push(pair), p));
        }
    }
}

/// The index of the first entry under key `k`, if any.
fn assoc_index<V>(m: &Vec<(String, V)>, k: &str) -> (r: Option<usize>)
    ensures
        r matches Some(i) ==> i < m@.len() && m@[i as int].0@ == k@ && (forall|j: int|
            0 <= j < i ==> m@[j].0@ != k@),
        r is None ==> !assoc_has(m@, k@),
{
    let n = m.len();
    let mut i: usize = 0;
    while i < n
        invariant
            n == m@.len(),
            i <= n,
            forall|j: int| 0 <= j < i ==> m@[j].0@ != k@,
        decreases n - i,
    {
        if str_eq(m[i].0.as_str(), k) {
            return Some(i);
        }
        i = i + 1;
    }
    None
}

impl HistoryData {
    /// Every map has unique keys, including each per-query inner map.
    pub open spec fn wf(self) -> bool {
        &&& assoc_keys_unique(self.global@)
        &&& assoc_keys_unique(self.query@)
        &&& assoc_keys_unique(self.folder_expansion@)
        &&& forall|i: int| 0 <= i < self.query@.len() ==> assoc_keys_unique(
            #[trigger] self.query@[i].1@,
        )
    }

    /// The empty history.
    pub fn new() -> (r: Self)
        ensures
            r.wf(),
            r.global@ == Seq::<(String, GlobalEntry)>::empty(),
            r.query@ == Seq::<(String, Vec<(String, u32)>)>::empty(),
            r.folder_expansion@ == Seq::<(String, u32)>::empty(),
    {
        HistoryData { global: Vec::new(), query: Vec::new(), folder_expansion: Vec::new() }
    }
}

/// The launch count recorded for `path`, zero when absent.
pub open spec fn global_count_spec(d: HistoryData, path: Seq<char>) -> u32 {
    match assoc_get(d.global@, path) {
        Some(e) => e.launch_count,
        None => 0,
    }
}

/// The last-launch time recorded for `path`.
pub open spec fn last_launched_spec(d: HistoryData, path: Seq<char>) -> Option<u64> {
    match assoc_get(d.global@, path) {
        Some(e) => Some(e.last_launched),
        None => None,
    }
}

/// The launch tally of `path` under the normalized query `q`, zero when
/// absent.
pub open spec fn query_count_spec(d: HistoryData, q: Seq<char>, path: Seq<char>) -> u32 {
    match assoc_get(d.query@, q) {
        Some(inner) => match assoc_get(inner@, path) {
            Some(c) => c,
            None => 0,
        },
        None => 0,
    }
}

/// The expansion count recorded for `folder`, zero when absent.
pub open spec fn folder_count_spec(d: HistoryData, folder: Seq<char>) -> u32 {
    match assoc_get(d.folder_expansion@, folder) {
        Some(c) => c,
        None => 0,
    }
}

/// What one launch of `path` under `query` at time `now` does to the
/// history: the path's launch count saturates upward, its recency becomes
/// `now`, and when the normalized query is non-empty that query's tally for
/// the path saturates upward. Nothing else changes.
pub open spec fn recorded_launch(
    pre: HistoryData,
    post: HistoryData,
    path: Seq<char>,
    query: Seq<char>,
    now: u64,
) -> bool {
    let nq = normalize_spec(query);
    &&& post.wf()
    &&& global_count_spec(post, path) == global_count_spec(pre, path) as nat + 1 || (
    global_count_spec(pre, path) == u32::MAX && global_count_spec(post, path) == u32::MAX)
    &&& last_launched_spec(post, path) == Some(now)
    &&& forall|p: Seq<char>| p != path ==> global_count_spec(post, p) == global_count_spec(pre, p)
    &&& forall|p: Seq<char>| p != path ==> last_launched_spec(post, p) == last_launched_spec(
        pre,
        p,
    )
    &&& (nq.len() > 0 ==> query_count_spec(post, nq, path) == query_count_spec(pre, nq, path)
        as nat + 1 || (query_count_spec(pre, nq, path) == u32::MAX && query_count_spec(
        post,
        nq,
        path,
    ) == u32::MAX))
    &&& forall|q: Seq<char>, p: Seq<char>|
        !(nq.len() > 0 && q == nq && p == path) ==> query_count_spec(post, q, p)
            == query_count_spec(pre, q, p)
    &&& forall|f: Seq<char>| folder_count_spec(post, f) == folder_count_spec(pre, f)
}

/// The history store: the in-memory history plus its growth bounds.
pub struct HistoryStore {
    data: HistoryData,
    top_n: usize,
    max_history_display: usize,
}

impl HistoryStore {
    pub open spec fn wf(self) -> bool {
        self.spec_data().wf()
    }

    pub closed spec fn spec_data(self) -> HistoryData {
        self.data
    }

    pub closed spec fn spec_top_n(self) -> usize {
        self.top_n
    }

    pub closed spec fn spec_max_history_display(self) -> usize {
        self.max_history_display
    }

    /// An empty store with the given growth bounds.
    pub fn new(top_n: usize, max_history_display: usize) -> (r: Self)
        ensures
            r.wf(),
            r.spec_data().global@ == Seq::<(String, GlobalEntry)>::empty(),
            r.spec_data().query@ == Seq::<(String, Vec<(String, u32)>)>::empty(),
            r.spec_data().folder_expansion@ == Seq::<(String, u32)>::empty(),
            r.spec_top_n() == top_n,
            r.spec_max_history_display() == max_history_display,
    {
        HistoryStore { data: HistoryData::new(), top_n, max_history_display }
    }

    /// A store over existing history data.
    pub fn from_data(data: HistoryData, top_n: usize, max_history_display: usize) -> (r: Self)
        requires
            data.wf(),
        ensures
            r.wf(),
            r.spec_data() == data,
            r.spec_top_n() == top_n,
            r.spec_max_history_display() == max_history_display,
    {
        HistoryStore { data, top_n, max_history_display }
    }

    /// Read access to the in-memory history.
    pub fn data(&self) -> (r: &HistoryData)
        ensures
            r == self.spec_data(),
    {
        &self.data
    }

    /// How often `path` was launched.
    pub fn global_count(&self, path: &str) -> (r: u32)
        ensures
            r == global_count_spec(self.spec_data(), path@),
    {
        match assoc_index(&self.data.global, path) {
            Some(i) => {
                proof {
                    lemma_assoc_get_at(self.data.global@, path@, i as int);
                }
                self.data.global[i].1.launch_count
            },
            None => {
                proof {
                    lemma_assoc_get_none_from_has(self.data.global@, path@);
                }
                0
            },
        }
    }

    /// When `path` was last launched, if ever.
    pub fn last_launched(&self, path: &str) -> (r: Option<u64>)
        ensures
            r == last_launched_spec(self.spec_data(), path@),
    {
        match assoc_index(&self.data.global, path) {
            Some(i) => {
                proof {
                    lemma_assoc_get_at(self.data.global@, path@, i as int);
                }
                Some(self.data.global[i].1.last_launched)
            },
            None => {
                proof {
                    lemma_assoc_get_none_from_has(self.data.global@, path@);
                }
                None
            },
        }
    }

    /// How often `path` was launched from `query` (normalized).
    pub fn query_count(&self, query: &str, path: &str) -> (r: u32)
        ensures
            r == query_count_spec(self.spec_data(), normalize_spec(query@), path@),
    {
        let nq = normalize_query(query);
        match assoc_index(&self.data.query, nq.as_str()) {
            Some(i) => {
                proof {
                    lemma_assoc_get_at(self.data.query@, nq@, i as int);
                }
                let inner = &self.data.query[i].1;
                match assoc_index(inner, path) {
                    Some(j) => {
                        proof {
                            lemma_assoc_get_at(inner@, path@, j as int);
                        }
                        inner[j].1
                    },
                    None => {
                        proof {
                            lemma_assoc_get_none_from_has(inner@, path@);
                        }
                        0
                    },
                }
            },
            None => {
                proof {
                    lemma_assoc_get_none_from_has(self.data.query@, nq@);
                }
                0
            },
        }
    }

    /// How often `folder` was drilled into.
    pub fn folder_expansion_count(&self, folder_path: &str) -> (r: u32)
        ensures
            r == folder_count_spec(self.spec_data(), folder_path@),
    {
        match assoc_index(&self.data.folder_expansion, folder_path) {
            Some(i) => {
                proof {
                    lemma_assoc_get_at(self.data.folder_expansion@, folder_path@, i as int);
                }
                self.data.folder_expansion[i].1
            },
            None => {
                proof {
                    lemma_assoc_get_none_from_has(self.data.folder_expansion@, folder_path@);
                }
                0
            },
        }
    }
}

/// Relies on std::time::SystemTime::now: seconds since the Unix epoch, or
/// zero when the clock reads earlier than the epoch. The clock decides the
/// result, so nothing is stated of it.
#[verifier::external_body]
fn current_unix_time() -> u64 {
    std::time::SystemTime::now()
        .duration_since(std::time::UNIX_EPOCH)
        .unwrap_or_default()
        .as_secs()
}

impl HistoryStore {
    /// Record one launch of `path` under `query`, stamped with the clock
    /// reading `now`.
    pub fn record_launch_at(&mut self, path: &str, query: &str, now: u64)
        requires
            old(self).wf(),
        ensures
            final(self).wf(),
            recorded_launch(old(self).spec_data(), final(self).spec_data(), path@, query@, now),
            final(self).spec_top_n() == old(self).spec_top_n(),
            final(self).spec_max_history_display() == old(self).spec_max_history_display(),
    {
        let ghost d0 = self.data;
        let ghost g0 = self.data.global@;
        match assoc_index(&self.data.global, path) {
            Some(i) => {
                let pair = self.data.global.remove(i);
                let e2 = GlobalEntry {
                    launch_count: pair.1.launch_count.saturating_add(1),
                    last_launched: now,
                };
                let ghost np = (pair.0, e2);
                self.data.global.insert(i, (pair.0, e2));
                proof {
                    assert(self.data.global@ =~= g0.update(i as int, np));
                    assert(forall|j: int| 0 <= j < g0.len() ==> self.data.global@[j].0@ == g0[j].0@);
                    assert(assoc_keys_unique(self.data.global@)) by {
                        assert forall|a: int, b: int| 0 <= a < b < self.data.global@.len() implies
                            self.data.global@[a].0@ != self.data.global@[b].0@ by {
                            assert(g0[a].0@ != g0[b].0@);
                        }
                    }
                    lemma_assoc_get_at(g0, path@, i as int);
                    assert forall|p: Seq<char>| #![all_triggers] true implies assoc_get(
                        self.data.global@,
                        p,
                    ) == (if p == path@ {
                        Some(np.1)
                    } else {
                        assoc_get(g0, p)
                    }) by {
                        lemma_assoc_get_update(g0, i as int, np, p);
                    }
                }
            },
            None => {
                let key = path.to_owned();
                let e2 = GlobalEntry { launch_count: 1, last_launched: now };
                let ghost np = (key, e2);
                self.data.global.push((key, e2));
                proof {
                    assert(self.data.global@ =~= g0.push(np));
                    lemma_assoc_get_none_from_has(g0, path@);
                    assert forall|p: Seq<char>| #![all_triggers] true implies assoc_get(
                        self.data.global@,
                        p,
                    ) == (if p == path@ {
                        Some(np.1)
                    } else {
                        assoc_get(g0, p)
                    }) by {
                        lemma_assoc_get_push(g0, np, p);
                    }
                    assert(assoc_keys_unique(self.data.global@)) by {
                        assert(forall|j: int| 0 <= j < g0.len() ==> g0[j].0@ != path@);
                    }
                }
            },
        }
        let ghost d1 = self.data;
        proof {
            assert(d1.query == d0.query);
            assert(d1.folder_expansion == d0.folder_expansion);
        }

        let nq = normalize_query(query);
        if !nq.as_str().is_empty() {
            let ghost q0 = self.data.query@;
            match assoc_index(&self.data.query, nq.as_str()) {
                Some(i) => {
                    let pr = self.data.query.remove(i);
                    let k = pr.0;
                    let mut inner = pr.1;
                    let ghost inner0 = inner@;
                    proof {
                        assert(assoc_keys_unique(inner0)) by {
                            assert(q0[i as int].1 == inner);
                        }
                    }
                    match assoc_index(&inner, path) {
                        Some(j) => {
                            let ip = inner.remove(j);
                            let ghost nip = (ip.0, ip.1.saturating_add(1));
                            let c2 = ip.1.saturating_add(1);
                            inner.insert(j, (ip.0, c2));
                            proof {
                                assert(inner@ =~= inner0.update(j as int, nip));
                                assert(forall|l: int| 0 <= l < inner0.len() ==> inner@[l].0@
                                    == inner0[l].0@);
                                assert(assoc_keys_unique(inner@)) by {
                                    assert forall|a: int, b: int| 0 <= a < b < inner@.len() implies
                                        inner@[a].0@ != inner@[b].0@ by {
                                        assert(inner0[a].0@ != inner0[b].0@);
                                    }
                                }
                                lemma_assoc_get_at(inner0, path@, j as int);
                                assert forall|p: Seq<char>| #![all_triggers] true implies assoc_get(
                                    inner@,
                                    p,
                                ) == (if p == path@ {
                                    Some(nip.1)
                                } else {
                                    assoc_get(inner0, p)
                                }) by {
                                    lemma_assoc_get_update(inner0, j as int, nip, p);
                                }
                            }
                        },
                        None => {
                            let pkey = path.to_owned();
                            let ghost nip = (pkey, 1u32);
                            inner.push((pkey, 1));
                            proof {
                                assert(inner@ =~= inner0.push(nip));
                                lemma_assoc_get_none_from_has(inner0, path@);
                                assert forall|p: Seq<char>| #![all_triggers] true implies assoc_get(
                                    inner@,
                                    p,
                                ) == (if p == path@ {
                                    Some(1u32)
                                } else {
                                    assoc_get(inner0, p)
                                }) by {
                                    lemma_assoc_get_push(inner0, nip, p);
                                }
                                assert(assoc_keys_unique(inner@)) by {
                                    assert(forall|l: int| 0 <= l < inner0.len() ==> inner0[l].0@
                                        != path@);
                                }
                            }
                        },
                    }
                    let ghost ni = (k, inner);
                    self.data.query.insert(i, (k, inner));
                    proof {
                        assert(self.data.query@ =~= q0.update(i as int, ni));
                        assert(forall|l: int| 0 <= l < q0.len() ==> self.data.query@[l].0@
                            == q0[l].0@);
                        assert(assoc_keys_unique(self.data.query@)) by {
                            assert forall|a: int, b: int| 0 <= a < b < self.data.query@.len()
                                implies self.data.query@[a].0@ != self.data.query@[b].0@ by {
                                assert(q0[a].0@ != q0[b].0@);
                            }
                        }
                        lemma_assoc_get_at(q0, nq@, i as int);
                        assert forall|q: Seq<char>| #![all_triggers] true implies assoc_get(
                            self.data.query@,
                            q,
                        ) == (if q == nq@ {
                            Some(ni.1)
                        } else {
                            assoc_get(q0, q)
                        }) by {
                            lemma_assoc_get_update(q0, i as int, ni, q);
                        }
                        assert forall|l: int| 0 <= l < self.data.query@.len() implies
                            assoc_keys_unique(#[trigger] self.data.query@[l].1@) by {
                            if l != i as int {
                                assert(self.data.query@[l] == q0[l]);
                            } else {
                                assert(self.data.query@[l].1 == ni.1);
                            }
                        }
                    }
                },
                None => {
                    let mut inner: Vec<(String, u32)> = Vec::new();
                    let pkey = path.to_owned();
                    let ghost nip = (pkey, 1u32);
                    let ghost e0 = Seq::<(String, u32)>::empty();
                    inner.push((pkey, 1));
                    proof {
                        assert(inner@ =~= e0.push(nip));
                        assert forall|p: Seq<char>| #![all_triggers] true implies assoc_get(
                            inner@,
                            p,
                        ) == (if p == path@ {
                            Some(1u32)
                        } else {
                            None::<u32>
                        }) by {
                            assert(!assoc_has(e0, nip.0@));
                            lemma_assoc_get_push(e0, nip, p);
                            assert(assoc_get(e0, p) == None::<u32>);
                        }
                    }
                    let ghost ni = (nq, inner);
                    self.data.query.push((nq, inner));
                    proof {
                        assert(self.data.query@ =~= q0.push(ni));
                        lemma_assoc_get_none_from_has(q0, ni.0@);
                        assert forall|q: Seq<char>| #![all_triggers] true implies assoc_get(
                            self.data.query@,
                            q,
                        ) == (if q == ni.0@ {
                            Some(ni.1)
                        } else {
                            assoc_get(q0, q)
                        }) by {
                            lemma_assoc_get_push(q0, ni, q);
                        }
                        assert(assoc_keys_unique(self.data.query@)) by {
                            assert(forall|l: int| 0 <= l < q0.len() ==> q0[l].0@ != ni.0@);
                        }
                        assert forall|l: int| 0 <= l < self.data.query@.len() implies
                            assoc_keys_unique(#[trigger] self.data.query@[l].1@) by {
                            if l < q0.len() {
                                assert(self.data.query@[l] == q0[l]);
                            } else {
                                assert(self.data.query@[l].1@ =~= inner@);
                                assert(inner@.len() == 1);
                            }
                        }
                    }
                },
            }
        }
        proof {
            assert(self.data.global == d1.global);
            assert(self.data.folder_expansion == d0.folder_expansion);
        }
    }

    /// Record one launch of `path` under `query`, stamped with the current
    /// clock reading.
    pub fn record_launch(&mut self, path: &str, query: &str)
        requires
            old(self).wf(),
        ensures
            final(self).wf(),
            exists|now: u64| recorded_launch(
                old(self).spec_data(),
                final(self).spec_data(),
                path@,
                query@,
                now,
            ),
            final(self).spec_top_n() == old(self).spec_top_n(),
            final(self).spec_max_history_display() == old(self).spec_max_history_display(),
    {
        let now = current_unix_time();
        self.record_launch_at(path, query, now);
    }

    /// Record that `folder_path` was drilled into once.
    pub fn record_folder_expansion(&mut self, folder_path: &str)
        requires
            old(self).wf(),
        ensures
            final(self).wf(),
            folder_count_spec(final(self).spec_data(), folder_path@) == folder_count_spec(
                old(self).spec_data(),
                folder_path@,
            ) as nat + 1 || (folder_count_spec(old(self).spec_data(), folder_path@) == u32::MAX
                && folder_count_spec(final(self).spec_data(), folder_path@) == u32::MAX),
            forall|f: Seq<char>| f != folder_path@ ==> folder_count_spec(
                final(self).spec_data(),
                f,
            ) == folder_count_spec(old(self).spec_data(), f),
            final(self).spec_data().global == old(self).spec_data().global,
            final(self).spec_data().query == old(self).spec_data().query,
            final(self).spec_top_n() == old(self).spec_top_n(),
            final(self).spec_max_history_display() == old(self).spec_max_history_display(),
    {
        let ghost f0 = self.data.folder_expansion@;
        match assoc_index(&self.data.folder_expansion, folder_path) {
            Some(i) => {
                let pair = self.data.folder_expansion.remove(i);
                let c2 = pair.1.saturating_add(1);
                let ghost np = (pair.0, c2);
                self.data.folder_expansion.insert(i, (pair.0, c2));
                proof {
                    assert(self.data.folder_expansion@ =~= f0.update(i as int, np));
                    assert(forall|j: int| 0 <= j < f0.len() ==> self.data.folder_expansion@[j].0@
                        == f0[j].0@);
                    assert(assoc_keys_unique(self.data.folder_expansion@)) by {
                        assert forall|a: int, b: int| 0 <= a < b < self.data.folder_expansion@.len()
                            implies self.data.folder_expansion@[a].0@
                            != self.data.folder_expansion@[b].0@ by {
                            assert(f0[a].0@ != f0[b].0@);
                        }
                    }
                    lemma_assoc_get_at(f0, folder_path@, i as int);
                    assert forall|p: Seq<char>| #![all_triggers] true implies assoc_get(
                        self.data.folder_expansion@,
                        p,
                    ) == (if p == folder_path@ {
                        Some(np.1)
                    } else {
                        assoc_get(f0, p)
                    }) by {
                        lemma_assoc_get_update(f0, i as int, np, p);
                    }
                }
            },
            None => {
                let key = folder_path.to_owned();
                let ghost np = (key, 1u32);
                self.data.folder_expansion.push((key, 1));
                proof {
                    assert(self.data.folder_expansion@ =~= f0.push(np));
                    lemma_assoc_get_none_from_has(f0, folder_path@);
                    assert forall|p: Seq<char>| #![all_triggers] true implies assoc_get(
                        self.data.folder_expansion@,
                        p,
                    ) == (if p == folder_path@ {
                        Some(1u32)
                    } else {
                        assoc_get(f0, p)
                    }) by {
                        lemma_assoc_get_push(f0, np, p);
                    }
                    assert(assoc_keys_unique(self.data.folder_expansion@)) by {
                        assert(forall|j: int| 0 <= j < f0.len() ==> f0[j].0@ != folder_path@);
                    }
                }
            },
        }
    }
}

pub open spec fn spec_min(a: int, b: int) -> int {
    if a < b {
        a
    } else {
        b
    }
}

/// What the recent-launches listing promises of `out`: it names the paths
/// of `min(cap, len)` distinct global entries, most recently launched first,
/// and no entry outside the listing was launched more recently than one
/// inside it.
pub open spec fn recent_listing_ok(
    g: Seq<(String, GlobalEntry)>,
    cap: int,
    order: Seq<int>,
    out: Seq<String>,
) -> bool {
    &&& order.no_duplicates()
    &&& order.len() == spec_min(cap, g.len() as int)
    &&& (forall|k: int| 0 <= k < order.len() ==> 0 <= #[trigger] order[k] < g.len())
    &&& out.len() == order.len()
    &&& (forall|k: int| 0 <= k < order.len() ==> out[k] == g[#[trigger] order[k]].0)
    &&& (forall|k1: int, k2: int| 0 <= k1 < k2 < order.len() ==> g[#[trigger] order[k1]].1.last_launched
        >= g[#[trigger] order[k2]].1.last_launched)
    &&& (forall|i: int, k: int|
        #![trigger order.contains(i), order[k]]
        0 <= i < g.len() && !order.contains(i) && 0 <= k < order.len()
            ==> g[order[k]].1.last_launched >= g[i].1.last_launched)
}

/// In a listing that satisfies `recent_listing_ok`, a strictly more recently
/// launched entry stands strictly earlier.
pub proof fn lemma_recent_more_recent_first(
    g: Seq<(String, GlobalEntry)>,
    cap: int,
    order: Seq<int>,
    out: Seq<String>,
    k1: int,
    k2: int,
)
    requires
        recent_listing_ok(g, cap, order, out),
        0 <= k1 < order.len(),
        0 <= k2 < order.len(),
        g[order[k1]].1.last_launched > g[order[k2]].1.last_launched,
    ensures
        k1 < k2,
{
    if k2 < k1 {
        assert(g[order[k2]].1.last_launched >= g[order[k1]].1.last_launched);
    }
}

impl HistoryStore {
    /// The most recently launched target paths, most recent first, capped to
    /// the configured display size.
    pub fn recent_launches(&self) -> (r: Vec<String>)
        ensures
            exists|order: Seq<int>| recent_listing_ok(
                self.spec_data().global@,
                self.spec_max_history_display() as int,
                order,
                r@,
            ),
    {
        let g = &self.data.global;
        let n = g.len();
        let mut items: Vec<RankItem> = Vec::new();
        let mut i: usize = 0;
        while i < n
            invariant
                n == g@.len(),
                i <= n,
                items@.len() == i,
                forall|k: int| 0 <= k < i ==> (#[trigger] items@[k]).primary == 0
                    && items@[k].secondary == g@[k].1.last_launched && items@[k].idx == k,
            decreases n - i,
        {
            items.push(
                RankItem {
                    primary: 0,
                    secondary: g[i].1.last_launched,
                    name_key: Vec::new(),
                    idx: i,
                },
            );
            i = i + 1;
        }
        let ghost items0 = items@;
        let sorted = sort_rank_items(items);
        proof {
            assert(forall|a: int, b: int| 0 <= a < b < items0.len() ==> items0[a].idx
                != items0[b].idx);
            lemma_perm_facts(items0, sorted@);
            assert forall|k: int| 0 <= k < sorted@.len() implies (#[trigger] sorted@[k]).primary
                == 0 && sorted@[k].idx < n && sorted@[k].secondary == g@[sorted@[k].idx
                as int].1.last_launched by {
                assert(items0.contains(sorted@[k]));
                let j = choose|j: int| 0 <= j < items0.len() && items0[j] == sorted@[k];
                assert(items0[j].idx == j);
            }
        }
        let cap = self.max_history_display;
        let mut out: Vec<String> = Vec::new();
        let mut k: usize = 0;
        while k < sorted.len() && k < cap
            invariant
                n == g@.len(),
                sorted@.len() == n,
                forall|t: int| 0 <= t < sorted@.len() ==> (#[trigger] sorted@[t]).idx < n,
                k <= sorted@.len(),
                k <= cap,
                out@.len() == k,
                forall|t: int| 0 <= t < k ==> out@[t] == g@[(#[trigger] sorted@[t]).idx as int].0,
            decreases sorted@.len() - k,
        {
            let idx = sorted[k].idx;
            out.push(g[idx].0.clone());
            k = k + 1;
        }
        proof {
            let sortedv = sorted@;
            let order = Seq::new(out@.len() as nat, |t: int| sortedv[t].idx as int);
            assert(order.len() == spec_min(cap as int, n as int));
            assert(order.no_duplicates()) by {
                assert forall|t1: int, t2: int|
                    0 <= t1 < order.len() && 0 <= t2 < order.len() && t1 != t2 implies order[t1]
                    != order[t2] by {
                    if t1 < t2 {
                        assert(sortedv[t1].idx != sortedv[t2].idx);
                    } else {
                        assert(sortedv[t2].idx != sortedv[t1].idx);
                    }
                }
            }
            assert forall|k1: int, k2: int|
                0 <= k1 < k2 < order.len() implies g@[#[trigger] order[k1]].1.last_launched >= g@[
                #[trigger] order[k2]].1.last_launched by {
                assert(crate::rank::rank_le(sortedv[k1], sortedv[k2]));
                if sortedv[k2].secondary > sortedv[k1].secondary {
                    assert(rank_lt(sortedv[k2], sortedv[k1]));
                }
            }
            assert forall|i2: int, kk: int|
                #![trigger order.contains(i2), order[kk]]
                0 <= i2 < g@.len() && !order.contains(i2) && 0 <= kk < order.len() implies g@[order[
                kk]].1.last_launched >= g@[i2].1.last_launched by {
                assert(items0[i2].idx == i2);
                assert(items0.contains(items0[i2]));
                assert(sortedv.contains(items0[i2]));
                let pos = choose|pos: int| 0 <= pos < sortedv.len() && sortedv[pos] == items0[i2];
                assert(sortedv[pos].idx == i2);
                if pos < order.len() {
                    assert(order[pos] == i2);
                    assert(order.contains(i2));
                }
                assert(pos >= order.len());
                assert(crate::rank::rank_le(sortedv[kk], sortedv[pos]));
                if sortedv[pos].secondary > sortedv[kk].secondary {
                    assert(rank_lt(sortedv[pos], sortedv[kk]));
                }
            }
            assert(recent_listing_ok(
                self.spec_data().global@,
                self.spec_max_history_display() as int,
                order,
                out@,
            ));
        }
        out
    }
}

/// `post` holds the `top_n` entries of `pre` with the highest counts, in
/// count order, ties resolved deterministically; every dropped entry's count
/// is at most every kept entry's count.
pub open spec fn top_n_order_ok<V>(
    pre: Seq<(String, V)>,
    post: Seq<(String, V)>,
    top_n: int,
    count_of: spec_fn(V) -> u32,
    order: Seq<int>,
) -> bool {
    &&& order.no_duplicates()
    &&& order.len() == top_n
    &&& (forall|k: int| 0 <= k < order.len() ==> 0 <= #[trigger] order[k] < pre.len())
    &&& post == Seq::new(order.len() as nat, |k: int| pre[order[k]])
    &&& (forall|k1: int, k2: int| 0 <= k1 < k2 < order.len() ==> count_of(
        pre[#[trigger] order[k1]].1,
    ) >= count_of(pre[#[trigger] order[k2]].1))
    &&& (forall|i: int, k: int|
        #![trigger order.contains(i), order[k]]
        0 <= i < pre.len() && !order.contains(i) && 0 <= k < order.len() ==> count_of(
            pre[order[k]].1,
        ) >= count_of(pre[i].1))
}

pub open spec fn top_n_selection<V>(
    pre: Seq<(String, V)>,
    post: Seq<(String, V)>,
    top_n: int,
    count_of: spec_fn(V) -> u32,
) -> bool {
    exists|order: Seq<int>| top_n_order_ok(pre, post, top_n, count_of, order)
}

/// The launch count a global entry is ranked by.
pub open spec fn global_rank(e: GlobalEntry) -> u32 {
    e.launch_count
}

/// The expansion count a folder entry is ranked by.
pub open spec fn folder_rank(c: u32) -> u32 {
    c
}

pub open spec fn top_n_order_ok_global(
    pre: Seq<(String, GlobalEntry)>,
    post: Seq<(String, GlobalEntry)>,
    top_n: int,
    order: Seq<int>,
) -> bool {
    top_n_order_ok(pre, post, top_n, |e: GlobalEntry| global_rank(e), order)
}

pub open spec fn top_n_order_ok_folder(
    pre: Seq<(String, u32)>,
    post: Seq<(String, u32)>,
    top_n: int,
    order: Seq<int>,
) -> bool {
    top_n_order_ok(pre, post, top_n, |c: u32| folder_rank(c), order)
}

pub open spec fn top_n_selection_global(
    pre: Seq<(String, GlobalEntry)>,
    post: Seq<(String, GlobalEntry)>,
    top_n: int,
) -> bool {
    exists|order: Seq<int>| #[trigger] top_n_order_ok_global(pre, post, top_n, order)
}

pub open spec fn top_n_selection_folder(
    pre: Seq<(String, u32)>,
    post: Seq<(String, u32)>,
    top_n: int,
) -> bool {
    exists|order: Seq<int>| #[trigger] top_n_order_ok_folder(pre, post, top_n, order)
}

/// The per-query inner map restricted to target paths that survive in `g`.
pub open spec fn filter_kept(inner: Seq<(String, u32)>, g: Seq<(String, GlobalEntry)>) -> Seq<
    (String, u32),
>
    decreases inner.len(),
{
    if inner.len() == 0 {
        Seq::empty()
    } else if assoc_has(g, inner[0].0@) {
        seq![inner[0]] + filter_kept(inner.skip(1), g)
    } else {
        filter_kept(inner.skip(1), g)
    }
}

proof fn lemma_filter_kept_get(inner: Seq<(String, u32)>, g: Seq<(String, GlobalEntry)>, p: Seq<
    char,
>)
    ensures
        assoc_get(filter_kept(inner, g), p) == (if assoc_has(g, p) {
            assoc_get(inner, p)
        } else {
            None::<u32>
        }),
    decreases inner.len(),
{
    let f = filter_kept(inner, g);
    if inner.len() == 0 {
    } else {
        lemma_filter_kept_get(inner.skip(1), g, p);
        if assoc_has(g, inner[0].0@) {
            assert(f =~= seq![inner[0]] + filter_kept(inner.skip(1), g));
            assert(f[0] == inner[0]);
            assert(f.skip(1) =~= filter_kept(inner.skip(1), g));
        } else {
            if p == inner[0].0@ {
                assert(!assoc_has(g, p));
            }
        }
    }
}

proof fn lemma_filter_kept_has(inner: Seq<(String, u32)>, g: Seq<(String, GlobalEntry)>, k: Seq<
    char,
>)
    requires
        assoc_has(filter_kept(inner, g), k),
    ensures
        assoc_has(inner, k),
    decreases inner.len(),
{
    let f = filter_kept(inner, g);
    if inner.len() > 0 {
        if assoc_has(g, inner[0].0@) {
            if f[0].0@ == k {
                assert(f[0] == inner[0]);
                assert(0 <= 0 < inner.len() && inner[0].0@ == k);
            } else {
                assert(f.skip(1) =~= filter_kept(inner.skip(1), g));
                let j = choose|j: int| 0 <= j < f.len() && f[j].0@ == k;
                assert(f.skip(1)[j - 1].0@ == k);
                assert(assoc_has(filter_kept(inner.skip(1), g), k)) by {
                    assert(0 <= j - 1 < f.skip(1).len() && f.skip(1)[j - 1].0@ == k);
                }
                lemma_filter_kept_has(inner.skip(1), g, k);
                let l = choose|l: int| 0 <= l < inner.skip(1).len() && inner.skip(1)[l].0@ == k;
                assert(inner[l + 1].0@ == k);
                assert(0 <= l + 1 < inner.len() && inner[l + 1].0@ == k);
            }
        } else {
            lemma_filter_kept_has(inner.skip(1), g, k);
            let l = choose|l: int| 0 <= l < inner.skip(1).len() && inner.skip(1)[l].0@ == k;
            assert(0 <= l + 1 < inner.len() && inner[l + 1].0@ == k);
        }
    }
}

proof fn lemma_filter_kept_unique(inner: Seq<(String, u32)>, g: Seq<(String, GlobalEntry)>)
    requires
        assoc_keys_unique(inner),
    ensures
        assoc_keys_unique(filter_kept(inner, g)),
    decreases inner.len(),
{
    let f = filter_kept(inner, g);
    if inner.len() > 0 {
        assert(assoc_keys_unique(inner.skip(1))) by {
            assert(forall|a: int, b: int| 0 <= a < b < inner.skip(1).len() ==> inner.skip(1)[a]
                == inner[a + 1] && inner.skip(1)[b] == inner[b + 1]);
        }
        lemma_filter_kept_unique(inner.skip(1), g);
        if assoc_has(g, inner[0].0@) {
            let rest = filter_kept(inner.skip(1), g);
            assert(f =~= seq![inner[0]] + rest);
            assert forall|a: int, b: int| 0 <= a < b < f.len() implies f[a].0@ != f[b].0@ by {
                if a == 0 {
                    assert(f[b] == rest[b - 1]);
                    if f[0].0@ == f[b].0@ {
                        assert(assoc_has(rest, inner[0].0@)) by {
                            assert(0 <= b - 1 < rest.len() && rest[b - 1].0@ == inner[0].0@);
                        }
                        lemma_filter_kept_has(inner.skip(1), g, inner[0].0@);
                        let l = choose|l: int|
                            0 <= l < inner.skip(1).len() && inner.skip(1)[l].0@ == inner[0].0@;
                        assert(inner[l + 1].0@ == inner[0].0@);
                    }
                } else {
                    assert(f[a] == rest[a - 1] && f[b] == rest[b - 1]);
                }
            }
        }
    }
}

/// Keep only the inner entries whose target path survives in `keep`.
fn filter_inner_kept(inner: Vec<(String, u32)>, keep: &Vec<(String, GlobalEntry)>) -> (r: Vec<
    (String, u32),
>)
    ensures
        r@ == filter_kept(inner@, keep@),
{
    let ghost inner0 = inner@;
    let mut rest = inner;
    let mut out: Vec<(String, u32)> = Vec::new();
    proof {
        assert(inner0.skip(0) =~= inner0);
    }
    while rest.len() > 0
        invariant
            filter_kept(inner0, keep@) == out@ + filter_kept(rest@, keep@),
        decreases rest@.len(),
    {
        let ghost rest0 = rest@;
        let e = rest.remove(0);
        proof {
            assert(rest@ =~= rest0.skip(1));
        }
        match assoc_index(keep, e.0.as_str()) {
            Some(i) => {
                proof {
                    assert(assoc_has(keep@, e.0@)) by {
                        assert(0 <= i < keep@.len() && keep@[i as int].0@ == e.0@);
                    }
                    assert(filter_kept(rest0, keep@) =~= seq![rest0[0]] + filter_kept(
                        rest0.skip(1),
                        keep@,
                    ));
                }
                let ghost out0 = out@;
                out.push(e);
                proof {
                    assert(out@ + filter_kept(rest@, keep@) =~= out0 + filter_kept(rest0, keep@));
                }
            },
            None => {
                proof {
                    assert(filter_kept(rest0, keep@) == filter_kept(rest0.skip(1), keep@));
                }
            },
        }
    }
    proof {
        assert(filter_kept(rest@, keep@) =~= Seq::<(String, u32)>::empty());
        assert(out@ =~= out@ + filter_kept(rest@, keep@));
        assert(out@ =~= filter_kept(inner0, keep@));
    }
    out
}

/// The `top_n` entries of `g` with the highest launch counts.
fn select_top_global(g: &Vec<(String, GlobalEntry)>, top_n: usize) -> (r: Vec<
    (String, GlobalEntry),
>)
    requires
        g@.len() > top_n,
        assoc_keys_unique(g@),
    ensures
        top_n_selection_global(g@, r@, top_n as int),
        assoc_keys_unique(r@),
        r@.len() == top_n,
{
    let n = g.len();
    let mut items: Vec<RankItem> = Vec::new();
    let mut i: usize = 0;
    while i < n
        invariant
            n == g@.len(),
            i <= n,
            items@.len() == i,
            forall|k: int| 0 <= k < i ==> (#[trigger] items@[k]).primary == g@[k].1.launch_count
                as i64 && items@[k].idx == k,
        decreases n - i,
    {
        items.push(
            RankItem {
                primary: g[i].1.launch_count as i64,
                secondary: 0,
                name_key: Vec::new(),
                idx: i,
            },
        );
        i = i + 1;
    }
    let ghost items0 = items@;
    let sorted = sort_rank_items(items);
    proof {
        assert(forall|a: int, b: int| 0 <= a < b < items0.len() ==> items0[a].idx != items0[b].idx);
        lemma_perm_facts(items0, sorted@);
        assert forall|k: int| 0 <= k < sorted@.len() implies (#[trigger] sorted@[k]).idx < n && (
        sorted@[k]).primary == g@[sorted@[k].idx as int].1.launch_count as i64 by {
            assert(items0.contains(sorted@[k]));
            let j = choose|j: int| 0 <= j < items0.len() && items0[j] == sorted@[k];
            assert(items0[j].idx == j);
        }
    }
    let mut out: Vec<(String, GlobalEntry)> = Vec::new();
    let mut k: usize = 0;
    while k < top_n
        invariant
            n == g@.len(),
            top_n < n,
            sorted@.len() == n,
            forall|t: int| 0 <= t < sorted@.len() ==> (#[trigger] sorted@[t]).idx < n,
            k <= top_n,
            out@.len() == k,
            forall|t: int| 0 <= t < k ==> out@[t] == g@[(#[trigger] sorted@[t]).idx as int],
        decreases top_n - k,
    {
        let idx = sorted[k].idx;
        let key = g[idx].0.clone();
        let entry = g[idx].1;
        out.push((key, entry));
        proof {
            assert(out@[k as int] == g@[sorted@[k as int].idx as int]);
        }
        k = k + 1;
    }
    proof {
        let sortedv = sorted@;
        let order = Seq::new(top_n as nat, |t: int| sortedv[t].idx as int);
        let count_of = |e: GlobalEntry| global_rank(e);
        assert(order.no_duplicates()) by {
            assert forall|t1: int, t2: int|
                0 <= t1 < order.len() && 0 <= t2 < order.len() && t1 != t2 implies order[t1]
                != order[t2] by {
                if t1 < t2 {
                    assert(sortedv[t1].idx != sortedv[t2].idx);
                } else {
                    assert(sortedv[t2].idx != sortedv[t1].idx);
                }
            }
        }
        assert(out@ =~= Seq::new(order.len() as nat, |t: int| g@[order[t]]));
        assert forall|k1: int, k2: int| 0 <= k1 < k2 < order.len() implies count_of(
            g@[#[trigger] order[k1]].1,
        ) >= count_of(g@[#[trigger] order[k2]].1) by {
            assert(crate::rank::rank_le(sortedv[k1], sortedv[k2]));
            if sortedv[k2].primary > sortedv[k1].primary {
                assert(rank_lt(sortedv[k2], sortedv[k1]));
            }
        }
        assert forall|i2: int, kk: int|
            #![trigger order.contains(i2), order[kk]]
            0 <= i2 < g@.len() && !order.contains(i2) && 0 <= kk < order.len() implies count_of(
            g@[order[kk]].1,
        ) >= count_of(g@[i2].1) by {
            assert(items0[i2].idx == i2);
            assert(items0.contains(items0[i2]));
            assert(sortedv.contains(items0[i2]));
            let pos = choose|pos: int| 0 <= pos < sortedv.len() && sortedv[pos] == items0[i2];
            assert(sortedv[pos].idx == i2);
            if pos < order.len() {
                assert(order[pos] == i2);
                assert(order.contains(i2));
            }
            assert(pos >= order.len());
            assert(crate::rank::rank_le(sortedv[kk], sortedv[pos]));
            if sortedv[pos].primary > sortedv[kk].primary {
                assert(rank_lt(sortedv[pos], sortedv[kk]));
            }
        }
        assert(top_n_order_ok(g@, out@, top_n as int, count_of, order));
        assert(top_n_order_ok_global(g@, out@, top_n as int, order));
        assert(assoc_keys_unique(out@)) by {
            assert forall|a: int, b: int| 0 <= a < b < out@.len() implies out@[a].0@ != out@[b].0@
                by {
                assert(out@[a] == g@[order[a]] && out@[b] == g@[order[b]]);
                assert(order[a] != order[b]);
                if order[a] < order[b] {
                    assert(g@[order[a]].0@ != g@[order[b]].0@);
                } else {
                    assert(g@[order[b]].0@ != g@[order[a]].0@);
                }
            }
        }
    }
    out
}

/// The `top_n` entries of `f` with the highest expansion counts.
fn select_top_folder(g: &Vec<(String, u32)>, top_n: usize) -> (r: Vec<(String, u32)>)
    requires
        g@.len() > top_n,
        assoc_keys_unique(g@),
    ensures
        top_n_selection_folder(g@, r@, top_n as int),
        assoc_keys_unique(r@),
        r@.len() == top_n,
{
    let n = g.len();
    let mut items: Vec<RankItem> = Vec::new();
    let mut i: usize = 0;
    while i < n
        invariant
            n == g@.len(),
            i <= n,
            items@.len() == i,
            forall|k: int| 0 <= k < i ==> (#[trigger] items@[k]).primary == g@[k].1 as i64
                && items@[k].idx == k,
        decreases n - i,
    {
        items.push(RankItem { primary: g[i].1 as i64, secondary: 0, name_key: Vec::new(), idx: i });
        i = i + 1;
    }
    let ghost items0 = items@;
    let sorted = sort_rank_items(items);
    proof {
        assert(forall|a: int, b: int| 0 <= a < b < items0.len() ==> items0[a].idx != items0[b].idx);
        lemma_perm_facts(items0, sorted@);
        assert forall|k: int| 0 <= k < sorted@.len() implies (#[trigger] sorted@[k]).idx < n && (
        sorted@[k]).primary == g@[sorted@[k].idx as int].1 as i64 by {
            assert(items0.contains(sorted@[k]));
            let j = choose|j: int| 0 <= j < items0.len() && items0[j] == sorted@[k];
            assert(items0[j].idx == j);
        }
    }
    let mut out: Vec<(String, u32)> = Vec::new();
    let mut k: usize = 0;
    while k < top_n
        invariant
            n == g@.len(),
            top_n < n,
            sorted@.len() == n,
            forall|t: int| 0 <= t < sorted@.len() ==> (#[trigger] sorted@[t]).idx < n,
            k <= top_n,
            out@.len() == k,
            forall|t: int| 0 <= t < k ==> out@[t] == g@[(#[trigger] sorted@[t]).idx as int],
        decreases top_n - k,
    {
        let idx = sorted[k].idx;
        let key = g[idx].0.clone();
        let entry = g[idx].1;
        out.push((key, entry));
        proof {
            assert(out@[k as int] == g@[sorted@[k as int].idx as int]);
        }
        k = k + 1;
    }
    proof {
        let sortedv = sorted@;
        let order = Seq::new(top_n as nat, |t: int| sortedv[t].idx as int);
        let count_of = |c: u32| folder_rank(c);
        assert(order.no_duplicates()) by {
            assert forall|t1: int, t2: int|
                0 <= t1 < order.len() && 0 <= t2 < order.len() && t1 != t2 implies order[t1]
                != order[t2] by {
                if t1 < t2 {
                    assert(sortedv[t1].idx != sortedv[t2].idx);
                } else {
                    assert(sortedv[t2].idx != sortedv[t1].idx);
                }
            }
        }
        assert(out@ =~= Seq::new(order.len() as nat, |t: int| g@[order[t]]));
        assert forall|k1: int, k2: int| 0 <= k1 < k2 < order.len() implies count_of(
            g@[#[trigger] order[k1]].1,
        ) >= count_of(g@[#[trigger] order[k2]].1) by {
            assert(crate::rank::rank_le(sortedv[k1], sortedv[k2]));
            if sortedv[k2].primary > sortedv[k1].primary {
                assert(rank_lt(sortedv[k2], sortedv[k1]));
            }
        }
        assert forall|i2: int, kk: int|
            #![trigger order.contains(i2), order[kk]]
            0 <= i2 < g@.len() && !order.contains(i2) && 0 <= kk < order.len() implies count_of(
            g@[order[kk]].1,
        ) >= count_of(g@[i2].1) by {
            assert(items0[i2].idx == i2);
            assert(items0.contains(items0[i2]));
            assert(sortedv.contains(items0[i2]));
            let pos = choose|pos: int| 0 <= pos < sortedv.len() && sortedv[pos] == items0[i2];
            assert(sortedv[pos].idx == i2);
            if pos < order.len() {
                assert(order[pos] == i2);
                assert(order.contains(i2));
            }
            assert(pos >= order.len());
            assert(crate::rank::rank_le(sortedv[kk], sortedv[pos]));
            if sortedv[pos].primary > sortedv[kk].primary {
                assert(rank_lt(sortedv[pos], sortedv[kk]));
            }
        }
        assert(top_n_order_ok(g@, out@, top_n as int, count_of, order));
        assert(top_n_order_ok_folder(g@, out@, top_n as int, order));
        assert(assoc_keys_unique(out@)) by {
            assert forall|a: int, b: int| 0 <= a < b < out@.len() implies out@[a].0@ != out@[b].0@
                by {
                assert(out@[a] == g@[order[a]] && out@[b] == g@[order[b]]);
                assert(order[a] != order[b]);
                if order[a] < order[b] {
                    assert(g@[order[a]].0@ != g@[order[b]].0@);
                } else {
                    assert(g@[order[b]].0@ != g@[order[a]].0@);
                }
            }
        }
    }
    out
}

/// What pruning promises: when the global map fits within `top_n` it and the
/// query map stay untouched; otherwise the global map keeps the `top_n`
/// highest launch counts and every query tally pointing at a dropped target
/// disappears, along with per-query maps that became empty. The folder map
/// is pruned independently by the same bound.
pub open spec fn pruned(pre: HistoryData, post: HistoryData, top_n: int) -> bool {
    &&& (pre.global@.len() <= top_n ==> post.global == pre.global && post.query == pre.query)
    &&& (pre.global@.len() > top_n ==> {
        &&& top_n_selection_global(pre.global@, post.global@, top_n)
        &&& (forall|q: Seq<char>, p: Seq<char>| #[trigger] count2(post.query@, q, p) == (
        if assoc_has(post.global@, p) {
            count2(pre.query@, q, p)
        } else {
            0u32
        }))
        &&& (forall|i: int| 0 <= i < post.query@.len() ==> (#[trigger] post.query@[i]).1@.len()
            > 0)
    })
    &&& (pre.folder_expansion@.len() <= top_n ==> post.folder_expansion == pre.folder_expansion)
    &&& (pre.folder_expansion@.len() > top_n ==> top_n_selection_folder(
        pre.folder_expansion@,
        post.folder_expansion@,
        top_n,
    ))
}

/// Count lookup over a raw query map.
pub open spec fn count2(m: Seq<(String, Vec<(String, u32)>)>, q: Seq<char>, p: Seq<char>) -> u32 {
    match assoc_get(m, q) {
        Some(inner) => match assoc_get(inner@, p) {
            Some(c) => c,
            None => 0,
        },
        None => 0,
    }
}

impl HistoryStore {
    /// Bound the stored history: keep the `top_n` most launched targets and
    /// the `top_n` most expanded folders, and drop query tallies that point
    /// at dropped targets.
    pub fn prune(&mut self)
        requires
            old(self).wf(),
        ensures
            final(self).wf(),
            pruned(old(self).spec_data(), final(self).spec_data(), old(self).spec_top_n() as int),
            final(self).spec_top_n() == old(self).spec_top_n(),
            final(self).spec_max_history_display() == old(self).spec_max_history_display(),
    {
        if self.data.global.len() > self.top_n {
            let newg = select_top_global(&self.data.global, self.top_n);
            let mut oldq: Vec<(String, Vec<(String, u32)>)> = Vec::new();
            core::mem::swap(&mut oldq, &mut self.data.query);
            let ghost q0 = oldq@;
            let ghost t0: int = 0;
            let mut newq: Vec<(String, Vec<(String, u32)>)> = Vec::new();
            let ghost gnew = newg@;
            proof {
                assert(q0.take(0) =~= Seq::<(String, Vec<(String, u32)>)>::empty());
            }
            while oldq.len() > 0
                invariant
                    newg@ == gnew,
                    assoc_keys_unique(q0),
                    forall|l: int| 0 <= l < q0.len() ==> assoc_keys_unique(#[trigger] q0[l].1@),
                    oldq@ =~= q0.skip(q0.len() - oldq@.len()),
                    oldq@.len() <= q0.len(),
                    assoc_keys_unique(newq@),
                    forall|q: Seq<char>| #[trigger] assoc_has(newq@, q) ==> assoc_has(
                        q0.take(q0.len() - oldq@.len()),
                        q,
                    ),
                    forall|l: int| 0 <= l < newq@.len() ==> (#[trigger] newq@[l]).1@.len() > 0,
                    forall|l: int| 0 <= l < newq@.len() ==> assoc_keys_unique(
                        #[trigger] newq@[l].1@,
                    ),
                    forall|q: Seq<char>, p: Seq<char>| #[trigger] count2(newq@, q, p) == (
                    if assoc_has(q0.take(q0.len() - oldq@.len()), q) && assoc_has(gnew, p) {
                        count2(q0, q, p)
                    } else {
                        0u32
                    }),
                decreases oldq@.len(),
            {
                let ghost t = q0.len() - oldq@.len();
                let ghost rest0 = oldq@;
                let ghost newq0 = newq@;
                let e = oldq.remove(0);
                proof {
                    assert(oldq@ =~= rest0.skip(1));
                    assert(e == q0[t]);
                    assert(oldq@ =~= q0.skip(t + 1));
                    assert(q0.take(t + 1) =~= q0.take(t).push(q0[t]));
                    assert(assoc_keys_unique(e.1@)) by {
                        assert(q0[t].1 == e.1);
                    }
                }
                let ghost kt = e.0@;
                let (key, inner_part) = e;
                proof {
                    assert(key == q0[t].0);
                    assert(inner_part == q0[t].1);
                }
                let ghost inner_v = inner_part@;
                let filtered = filter_inner_kept(inner_part, &newg);
                proof {
                    assert(filtered@ == filter_kept(inner_v, newg@));
                    assert(gnew == newg@);
                    assert(filtered@ == filter_kept(inner_v, gnew));
                    assert(inner_v == q0[t].1@);
                }
                proof {
                    // the key processed now is fresh for newq
                    if assoc_has(newq@, kt) {
                        assert(assoc_has(q0.take(t), kt));
                        let j = choose|j: int| 0 <= j < q0.take(t).len() && q0.take(t)[j].0@ == kt;
                        assert(q0[j].0@ == q0[t].0@);
                    }
                    assert(!assoc_has(newq@, kt));
                    // keys in the prefix relate across the push
                    assert forall|q: Seq<char>| #[trigger] assoc_has(q0.take(t + 1), q) && q != kt
                        implies assoc_has(q0.take(t), q) by {
                        let j = choose|j: int|
                            0 <= j < q0.take(t + 1).len() && (#[trigger] q0.take(t + 1)[j]).0@
                                == q;
                        assert(q0.take(t + 1)[j] == q0[j]);
                        assert(j < t);
                        assert(q0.take(t)[j].0@ == q);
                    }
                    assert forall|q: Seq<char>| #[trigger] assoc_has(q0.take(t), q) implies
                        assoc_has(q0.take(t + 1), q) by {
                        let j = choose|j: int| 0 <= j < q0.take(t).len() && q0.take(t)[j].0@ == q;
                        assert(q0.take(t + 1)[j].0@ == q);
                    }
                    assert(assoc_has(q0.take(t + 1), kt)) by {
                        assert(q0.take(t + 1)[t].0@ == kt);
                    }
                    // the tally of the processed query in the pre map
                    assert(forall|j: int| 0 <= j < t ==> q0[j].0@ != kt);
                    lemma_assoc_get_at(q0, kt, t);
                }
                proof {
                    assert(filtered@ == filter_kept(q0[t].1@, gnew));
                    lemma_filter_kept_unique(q0[t].1@, gnew);
                }
                if filtered.len() > 0 {
                    let ghost ni = (key, filtered);
                    newq.push((key, filtered));
                    proof {
                        assert(newq@ =~= newq0.push(ni));
                        assert forall|l: int| 0 <= l < newq@.len() implies assoc_keys_unique(
                            (#[trigger] newq@[l]).1@,
                        ) by {
                            if l < newq0.len() {
                                assert(newq@[l] == newq0[l]);
                            } else {
                                assert(newq@[l].1 == ni.1);
                            }
                        }
                        assert forall|q: Seq<char>| #![all_triggers] true implies assoc_get(
                            newq@,
                            q,
                        ) == (if q == kt {
                            Some(ni.1)
                        } else {
                            assoc_get(newq0, q)
                        }) by {
                            lemma_assoc_get_push(newq0, ni, q);
                        }
                        assert(assoc_keys_unique(newq@)) by {
                            assert forall|a: int, b: int| 0 <= a < b < newq@.len() implies newq@[
                                a].0@ != newq@[b].0@ by {
                                if b == newq@.len() - 1 {
                                    if newq0[a].0@ == kt {
                                        assert(assoc_has(newq0, kt)) by {
                                            assert(0 <= a < newq0.len() && newq0[a].0@ == kt);
                                        }
                                    }
                                }
                            }
                        }
                        assert forall|q: Seq<char>| #[trigger] assoc_has(newq@, q) implies
                            assoc_has(q0.take(t + 1), q) by {
                            let j = choose|j: int| 0 <= j < newq@.len() && newq@[j].0@ == q;
                            if j < newq0.len() {
                                assert(assoc_has(newq0, q)) by {
                                    assert(0 <= j < newq0.len() && newq0[j].0@ == q);
                                }
                            } else {
                                assert(q == kt);
                            }
                        }
                        assert forall|q: Seq<char>, p: Seq<char>| #![all_triggers] true implies
                            count2(newq@, q, p) == (if assoc_has(q0.take(t + 1), q) && assoc_has(
                            gnew,
                            p,
                        ) {
                            count2(q0, q, p)
                        } else {
                            0u32
                        }) by {
                            lemma_filter_kept_get(q0[t].1@, gnew, p);
                            if q == kt {
                                assert(assoc_get(newq@, q) == Some(ni.1));
                                if !assoc_has(gnew, p) {
                                    assert(assoc_get(filtered@, p) is None);
                                }
                            } else {
                                assert(assoc_get(newq@, q) == assoc_get(newq0, q));
                                assert(count2(newq@, q, p) == count2(newq0, q, p));
                                if assoc_has(q0.take(t + 1), q) {
                                    assert(assoc_has(q0.take(t), q));
                                }
                            }
                        }
                    }
                } else {
                    proof {
                        assert forall|q: Seq<char>, p: Seq<char>| #![all_triggers] true implies
                            count2(newq@, q, p) == (if assoc_has(q0.take(t + 1), q) && assoc_has(
                            gnew,
                            p,
                        ) {
                            count2(q0, q, p)
                        } else {
                            0u32
                        }) by {
                            lemma_filter_kept_get(q0[t].1@, gnew, p);
                            if q == kt {
                                lemma_assoc_get_none_from_has(newq@, kt);
                                if assoc_has(gnew, p) {
                                    assert(filtered@.len() == 0);
                                    assert(assoc_get(filtered@, p) is None);
                                    assert(assoc_get(q0[t].1@, p) is None);
                                }
                            } else {
                                if assoc_has(q0.take(t + 1), q) {
                                    assert(assoc_has(q0.take(t), q));
                                }
                            }
                        }
                    }
                }
            }
            proof {
                assert(q0.take(q0.len() - oldq@.len()) =~= q0);
            }
            self.data.query = newq;
            self.data.global = newg;
            proof {
                let pre = old(self).spec_data();
                let post = self.data;
                assert forall|q: Seq<char>, p: Seq<char>| #[trigger] count2(post.query@, q, p)
                    == (if assoc_has(post.global@, p) {
                    count2(pre.query@, q, p)
                } else {
                    0u32
                }) by {
                    if !assoc_has(q0, q) {
                        lemma_assoc_get_none_from_has(q0, q);
                    }
                }
            }
        }
        if self.data.folder_expansion.len() > self.top_n {
            let newf = select_top_folder(&self.data.folder_expansion, self.top_n);
            self.data.folder_expansion = newf;
        }
    }
}

/// The bytes of the persisted history file begin with this magic tag,
/// the letters `HIST`.
pub open spec fn history_magic_spec() -> Seq<u8> {
    seq![0x48u8, 0x49u8, 0x53u8, 0x54u8]
}

pub fn history_magic() -> (r: [u8; 4])
    ensures
        r@ == history_magic_spec(),
{
    let r: [u8; 4] = [0x48u8, 0x49u8, 0x53u8, 0x54u8];
    proof {
        assert(r@ =~= history_magic_spec());
    }
    r
}

pub const HISTORY_VERSION: u32 = 1;

/// The character-level image of the maps, which the codec round-trips.
pub ghost struct HistoryModel {
    pub global: Seq<(Seq<char>, GlobalEntry)>,
    pub query: Seq<(Seq<char>, Seq<(Seq<char>, u32)>)>,
    pub folder: Seq<(Seq<char>, u32)>,
}

pub open spec fn pairs_view(s: Seq<(String, u32)>) -> Seq<(Seq<char>, u32)> {
    s.map_values(|e: (String, u32)| (e.0@, e.1))
}

pub open spec fn globals_view(s: Seq<(String, GlobalEntry)>) -> Seq<(Seq<char>, GlobalEntry)> {
    s.map_values(|e: (String, GlobalEntry)| (e.0@, e.1))
}

pub open spec fn queries_view(s: Seq<(String, Vec<(String, u32)>)>) -> Seq<
    (Seq<char>, Seq<(Seq<char>, u32)>),
> {
    s.map_values(|e: (String, Vec<(String, u32)>)| (e.0@, pairs_view(e.1@)))
}

impl HistoryData {
    pub open spec fn model(self) -> HistoryModel {
        HistoryModel {
            global: globals_view(self.global@),
            query: queries_view(self.query@),
            folder: pairs_view(self.folder_expansion@),
        }
    }
}

pub open spec fn munique<V>(m: Seq<(Seq<char>, V)>) -> bool {
    forall|i: int, j: int| 0 <= i < j < m.len() ==> m[i].0 != m[j].0
}

pub open spec fn model_wf(m: HistoryModel) -> bool {
    &&& munique(m.global)
    &&& munique(m.query)
    &&& munique(m.folder)
    &&& forall|i: int| 0 <= i < m.query.len() ==> munique(#[trigger] m.query[i].1)
}

/// A string fits the length prefix of the codec.
pub open spec fn encodable_str(s: Seq<char>) -> bool {
    vstd::utf8::encode_utf8(s).len() <= u64::MAX
}

/// All lengths in the history fit the codec's length prefixes.
pub open spec fn encodable_history(m: HistoryModel) -> bool {
    &&& m.global.len() <= u64::MAX
    &&& m.query.len() <= u64::MAX
    &&& m.folder.len() <= u64::MAX
    &&& (forall|i: int| 0 <= i < m.global.len() ==> encodable_str(#[trigger] m.global[i].0))
    &&& (forall|i: int| 0 <= i < m.folder.len() ==> encodable_str(#[trigger] m.folder[i].0))
    &&& (forall|i: int| 0 <= i < m.query.len() ==> encodable_str(#[trigger] m.query[i].0)
        && m.query[i].1.len() <= u64::MAX && (forall|j: int|
        0 <= j < m.query[i].1.len() ==> encodable_str(#[trigger] m.query[i].1[j].0)))
}

pub open spec fn enc_pair(e: (Seq<char>, u32)) -> Seq<u8> {
    crate::binfmt::spec_enc_string(e.0) + crate::binfmt::spec_u32_le(e.1)
}

pub open spec fn enc_pairs(s: Seq<(Seq<char>, u32)>) -> Seq<u8>
    decreases s.len(),
{
    if s.len() == 0 {
        Seq::empty()
    } else {
        enc_pair(s[0]) + enc_pairs(s.skip(1))
    }
}

pub open spec fn enc_global_entry(e: (Seq<char>, GlobalEntry)) -> Seq<u8> {
    crate::binfmt::spec_enc_string(e.0) + crate::binfmt::spec_u32_le(e.1.launch_count)
        + crate::binfmt::spec_u64_le(e.1.last_launched)
}

pub open spec fn enc_globals(s: Seq<(Seq<char>, GlobalEntry)>) -> Seq<u8>
    decreases s.len(),
{
    if s.len() == 0 {
        Seq::empty()
    } else {
        enc_global_entry(s[0]) + enc_globals(s.skip(1))
    }
}

pub open spec fn enc_query_entry(e: (Seq<char>, Seq<(Seq<char>, u32)>)) -> Seq<u8> {
    crate::binfmt::spec_enc_string(e.0) + crate::binfmt::spec_u64_le(e.1.len() as u64) + enc_pairs(
        e.1,
    )
}

pub open spec fn enc_queries(s: Seq<(Seq<char>, Seq<(Seq<char>, u32)>)>) -> Seq<u8>
    decreases s.len(),
{
    if s.len() == 0 {
        Seq::empty()
    } else {
        enc_query_entry(s[0]) + enc_queries(s.skip(1))
    }
}

/// The payload of the history file: each map with its length in front.
pub open spec fn spec_history_payload(m: HistoryModel) -> Seq<u8> {
    crate::binfmt::spec_u64_le(m.global.len() as u64) + enc_globals(m.global)
        + crate::binfmt::spec_u64_le(m.query.len() as u64) + enc_queries(m.query)
        + crate::binfmt::spec_u64_le(m.folder.len() as u64) + enc_pairs(m.folder)
}

/// The complete history file: the payload wrapped in the envelope.
pub open spec fn spec_history_file(m: HistoryModel) -> Seq<u8> {
    crate::binfmt::spec_with_header(history_magic_spec(), HISTORY_VERSION, spec_history_payload(m))
}

proof fn lemma_enc_pairs_snoc(s: Seq<(Seq<char>, u32)>, x: (Seq<char>, u32))
    ensures
        enc_pairs(s.push(x)) == enc_pairs(s) + enc_pair(x),
    decreases s.len(),
{
    let s2 = s.push(x);
    if s.len() == 0 {
        assert(s2[0] == x);
        assert(s2.skip(1) =~= Seq::<(Seq<char>, u32)>::empty());
        assert(enc_pairs(Seq::<(Seq<char>, u32)>::empty()) == Seq::<u8>::empty());
        assert(enc_pairs(s2) == enc_pair(x) + Seq::<u8>::empty());
        assert(enc_pairs(s2) =~= enc_pairs(s) + enc_pair(x));
    } else {
        assert(s2[0] == s[0]);
        assert(s2.skip(1) =~= s.skip(1).push(x));
        lemma_enc_pairs_snoc(s.skip(1), x);
        assert(enc_pairs(s2) == enc_pair(s[0]) + enc_pairs(s.skip(1).push(x)));
        assert(enc_pairs(s2) == enc_pair(s[0]) + (enc_pairs(s.skip(1)) + enc_pair(x)));
        assert(enc_pairs(s) + enc_pair(x) == (enc_pair(s[0]) + enc_pairs(s.skip(1))) + enc_pair(x));
        assert((enc_pair(s[0]) + enc_pairs(s.skip(1))) + enc_pair(x) =~= enc_pair(s[0]) + (enc_pairs(
            s.skip(1),
        ) + enc_pair(x)));
    }
}

proof fn lemma_enc_globals_snoc(s: Seq<(Seq<char>, GlobalEntry)>, x: (Seq<char>, GlobalEntry))
    ensures
        enc_globals(s.push(x)) == enc_globals(s) + enc_global_entry(x),
    decreases s.len(),
{
    let s2 = s.push(x);
    if s.len() == 0 {
        assert(s2[0] == x);
        assert(s2.skip(1) =~= Seq::<(Seq<char>, GlobalEntry)>::empty());
        assert(enc_globals(Seq::<(Seq<char>, GlobalEntry)>::empty()) == Seq::<u8>::empty());
        assert(enc_globals(s2) == enc_global_entry(x) + Seq::<u8>::empty());
        assert(enc_globals(s2) =~= enc_globals(s) + enc_global_entry(x));
    } else {
        assert(s2[0] == s[0]);
        assert(s2.skip(1) =~= s.skip(1).push(x));
        lemma_enc_globals_snoc(s.skip(1), x);
        assert(enc_globals(s2) == enc_global_entry(s[0]) + enc_globals(s.skip(1).push(x)));
        assert(enc_globals(s2) == enc_global_entry(s[0]) + (enc_globals(s.skip(1)) + enc_global_entry(x)));
        assert(enc_globals(s) + enc_global_entry(x) == (enc_global_entry(s[0]) + enc_globals(s.skip(1))) + enc_global_entry(x));
        assert((enc_global_entry(s[0]) + enc_globals(s.skip(1))) + enc_global_entry(x) =~= enc_global_entry(s[0]) + (enc_globals(
            s.skip(1),
        ) + enc_global_entry(x)));
    }
}

proof fn lemma_enc_queries_snoc(
    s: Seq<(Seq<char>, Seq<(Seq<char>, u32)>)>,
    x: (Seq<char>, Seq<(Seq<char>, u32)>),
)
    ensures
        enc_queries(s.push(x)) == enc_queries(s) + enc_query_entry(x),
    decreases s.len(),
{
    let s2 = s.push(x);
    if s.len() == 0 {
        assert(s2[0] == x);
        assert(s2.skip(1) =~= Seq::<(Seq<char>, Seq<(Seq<char>, u32)>)>::empty());
        assert(enc_queries(Seq::<(Seq<char>, Seq<(Seq<char>, u32)>)>::empty()) == Seq::<u8>::empty());
        assert(enc_queries(s2) == enc_query_entry(x) + Seq::<u8>::empty());
        assert(enc_queries(s2) =~= enc_queries(s) + enc_query_entry(x));
    } else {
        assert(s2[0] == s[0]);
        assert(s2.skip(1) =~= s.skip(1).push(x));
        lemma_enc_queries_snoc(s.skip(1), x);
        assert(enc_queries(s2) == enc_query_entry(s[0]) + enc_queries(s.skip(1).push(x)));
        assert(enc_queries(s2) == enc_query_entry(s[0]) + (enc_queries(s.skip(1)) + enc_query_entry(x)));
        assert(enc_queries(s) + enc_query_entry(x) == (enc_query_entry(s[0]) + enc_queries(s.skip(1))) + enc_query_entry(x));
        assert((enc_query_entry(s[0]) + enc_queries(s.skip(1))) + enc_query_entry(x) =~= enc_query_entry(s[0]) + (enc_queries(
            s.skip(1),
        ) + enc_query_entry(x)));
    }
}

fn write_pairs(out: &mut Vec<u8>, s: &Vec<(String, u32)>)
    ensures
        final(out)@ == old(out)@ + enc_pairs(pairs_view(s@)),
{
    let n = s.len();
    let mut i: usize = 0;
    proof {
        assert(pairs_view(s@.take(0)) =~= Seq::<(Seq<char>, u32)>::empty());
        assert(out@ =~= out@ + enc_pairs(pairs_view(s@.take(0))));
    }
    while i < n
        invariant
            n == s@.len(),
            i <= n,
            out@ == old(out)@ + enc_pairs(pairs_view(s@.take(i as int))),
        decreases n - i,
    {
        crate::binfmt::push_string(out, s[i].0.as_str());
        crate::binfmt::push_u32_le(out, s[i].1);
        proof {
            let pv = pairs_view(s@.take(i as int));
            let x = (s@[i as int].0@, s@[i as int].1);
            lemma_enc_pairs_snoc(pv, x);
            assert(pairs_view(s@.take(i + 1)) =~= pv.push(x));
            assert(out@ =~= old(out)@ + enc_pairs(pairs_view(s@.take(i + 1))));
        }
        i = i + 1;
    }
    proof {
        assert(s@.take(n as int) =~= s@);
    }
}

fn write_globals(out: &mut Vec<u8>, s: &Vec<(String, GlobalEntry)>)
    ensures
        final(out)@ == old(out)@ + enc_globals(globals_view(s@)),
{
    let n = s.len();
    let mut i: usize = 0;
    proof {
        assert(globals_view(s@.take(0)) =~= Seq::<(Seq<char>, GlobalEntry)>::empty());
        assert(out@ =~= out@ + enc_globals(globals_view(s@.take(0))));
    }
    while i < n
        invariant
            n == s@.len(),
            i <= n,
            out@ == old(out)@ + enc_globals(globals_view(s@.take(i as int))),
        decreases n - i,
    {
        crate::binfmt::push_string(out, s[i].0.as_str());
        crate::binfmt::push_u32_le(out, s[i].1.launch_count);
        crate::binfmt::push_u64_le(out, s[i].1.last_launched);
        proof {
            let pv = globals_view(s@.take(i as int));
            let x = (s@[i as int].0@, s@[i as int].1);
            lemma_enc_globals_snoc(pv, x);
            assert(globals_view(s@.take(i + 1)) =~= pv.push(x));
            assert(out@ =~= old(out)@ + enc_globals(globals_view(s@.take(i + 1))));
        }
        i = i + 1;
    }
    proof {
        assert(s@.take(n as int) =~= s@);
    }
}

fn write_queries(out: &mut Vec<u8>, s: &Vec<(String, Vec<(String, u32)>)>)
    ensures
        final(out)@ == old(out)@ + enc_queries(queries_view(s@)),
{
    let n = s.len();
    let mut i: usize = 0;
    proof {
        assert(queries_view(s@.take(0)) =~= Seq::<(Seq<char>, Seq<(Seq<char>, u32)>)>::empty());
        assert(out@ =~= out@ + enc_queries(queries_view(s@.take(0))));
    }
    while i < n
        invariant
            n == s@.len(),
            i <= n,
            out@ == old(out)@ + enc_queries(queries_view(s@.take(i as int))),
        decreases n - i,
    {
        crate::binfmt::push_string(out, s[i].0.as_str());
        crate::binfmt::push_u64_le(out, s[i].1.len() as u64);
        write_pairs(out, &s[i].1);
        proof {
            let pv = queries_view(s@.take(i as int));
            let x = (s@[i as int].0@, pairs_view(s@[i as int].1@));
            lemma_enc_queries_snoc(pv, x);
            assert(queries_view(s@.take(i + 1)) =~= pv.push(x));
            assert(pairs_view(s@[i as int].1@).len() == s@[i as int].1@.len());
            assert(out@ =~= old(out)@ + enc_queries(queries_view(s@.take(i + 1))));
        }
        i = i + 1;
    }
    proof {
        assert(s@.take(n as int) =~= s@);
    }
}

impl HistoryData {
    /// The persisted image of this history: its maps encoded behind the
    /// `HIST` envelope.
    pub fn encode(&self) -> (r: Vec<u8>)
        ensures
            r@ == spec_history_file(self.model()),
    {
        let mut payload: Vec<u8> = Vec::new();
        crate::binfmt::push_u64_le(&mut payload, self.global.len() as u64);
        write_globals(&mut payload, &self.global);
        crate::binfmt::push_u64_le(&mut payload, self.query.len() as u64);
        write_queries(&mut payload, &self.query);
        crate::binfmt::push_u64_le(&mut payload, self.folder_expansion.len() as u64);
        write_pairs(&mut payload, &self.folder_expansion);
        proof {
            assert(globals_view(self.global@).len() == self.global@.len());
            assert(queries_view(self.query@).len() == self.query@.len());
            assert(pairs_view(self.folder_expansion@).len() == self.folder_expansion@.len());
            assert(payload@ =~= spec_history_payload(self.model()));
        }
        crate::binfmt::serialize_with_header(history_magic(), HISTORY_VERSION, &payload)
    }
}

/// Parse `n` path/count pairs starting at `off`.
pub open spec fn sp_pairs(b: Seq<u8>, off: int, n: nat) -> Option<(Seq<(Seq<char>, u32)>, int)>
    decreases n,
{
    if n == 0 {
        Some((Seq::empty(), off))
    } else {
        match crate::binfmt::spec_read_string(b, off) {
            Some((s, o1)) => match crate::binfmt::spec_read_u32(b, o1) {
                Some((c, o2)) => match sp_pairs(b, o2, (n - 1) as nat) {
                    Some((rest, end)) => Some((seq![(s, c)] + rest, end)),
                    None => None,
                },
                None => None,
            },
            None => None,
        }
    }
}

/// Parse `n` global entries starting at `off`.
pub open spec fn sp_globals(b: Seq<u8>, off: int, n: nat) -> Option<
    (Seq<(Seq<char>, GlobalEntry)>, int),
>
    decreases n,
{
    if n == 0 {
        Some((Seq::empty(), off))
    } else {
        match crate::binfmt::spec_read_string(b, off) {
            Some((s, o1)) => match crate::binfmt::spec_read_u32(b, o1) {
                Some((c, o2)) => match crate::binfmt::spec_read_u64(b, o2) {
                    Some((t, o3)) => match sp_globals(b, o3, (n - 1) as nat) {
                        Some((rest, end)) => Some((
                            seq![(s, GlobalEntry { launch_count: c, last_launched: t })] + rest,
                            end,
                        )),
                        None => None,
                    },
                    None => None,
                },
                None => None,
            },
            None => None,
        }
    }
}

/// Parse `n` per-query maps starting at `off`.
pub open spec fn sp_queries(b: Seq<u8>, off: int, n: nat) -> Option<
    (Seq<(Seq<char>, Seq<(Seq<char>, u32)>)>, int),
>
    decreases n,
{
    if n == 0 {
        Some((Seq::empty(), off))
    } else {
        match crate::binfmt::spec_read_string(b, off) {
            Some((s, o1)) => match crate::binfmt::spec_read_u64(b, o1) {
                Some((m, o2)) => match sp_pairs(b, o2, m as nat) {
                    Some((inner, o3)) => match sp_queries(b, o3, (n - 1) as nat) {
                        Some((rest, end)) => Some((seq![(s, inner)] + rest, end)),
                        None => None,
                    },
                    None => None,
                },
                None => None,
            },
            None => None,
        }
    }
}

/// The history a byte buffer holds: `None` on a short buffer, a different
/// magic or version, malformed contents, trailing garbage, or duplicate
/// keys.
pub open spec fn spec_decode_history(bytes: Seq<u8>) -> Option<HistoryModel> {
    match crate::binfmt::spec_strip_header(bytes, history_magic_spec(), HISTORY_VERSION) {
        None => None,
        Some(pl) => match crate::binfmt::spec_read_u64(pl, 0) {
            Some((n1, o1)) => match sp_globals(pl, o1, n1 as nat) {
                Some((g, o2)) => match crate::binfmt::spec_read_u64(pl, o2) {
                    Some((n2, o3)) => match sp_queries(pl, o3, n2 as nat) {
                        Some((q, o4)) => match crate::binfmt::spec_read_u64(pl, o4) {
                            Some((n3, o5)) => match sp_pairs(pl, o5, n3 as nat) {
                                Some((f, end)) => {
                                    let m = HistoryModel { global: g, query: q, folder: f };
                                    if end == pl.len() && model_wf(m) {
                                        Some(m)
                                    } else {
                                        None
                                    }
                                },
                                None => None,
                            },
                            None => None,
                        },
                        None => None,
                    },
                    None => None,
                },
                None => None,
            },
            None => None,
        },
    }
}

fn parse_pairs(bytes: &[u8], off: usize, n: u64) -> (r: Option<(Vec<(String, u32)>, usize)>)
    ensures
        r is Some <==> sp_pairs(bytes@, off as int, n as nat) is Some,
        r matches Some(p) ==> sp_pairs(bytes@, off as int, n as nat) == Some(
            (pairs_view(p.0@), p.1 as int),
        ),
{
    let mut acc: Vec<(String, u32)> = Vec::new();
    let mut cur = off;
    let mut i: u64 = 0;
    proof {
        assert(pairs_view(acc@) =~= Seq::<(Seq<char>, u32)>::empty());
    }
    while i < n
        invariant
            i <= n,
            (match sp_pairs(bytes@, cur as int, (n - i) as nat) {
                Some(p) => sp_pairs(bytes@, off as int, n as nat) == Some(
                    (pairs_view(acc@) + p.0, p.1),
                ),
                None => sp_pairs(bytes@, off as int, n as nat) is None,
            }),
        decreases n - i,
    {
        let ghost rem = (n - i) as nat;
        let (s, o1) = match crate::binfmt::read_string(bytes, cur) {
            Some(p) => p,
            None => {
                return None;
            },
        };
        let (c, o2) = match crate::binfmt::read_u32_le(bytes, o1) {
            Some(p) => p,
            None => {
                return None;
            },
        };
        let ghost accv = pairs_view(acc@);
        let ghost x = (s@, c);
        acc.push((s, c));
        proof {
            assert(pairs_view(acc@) =~= accv.push(x));
            let sub = sp_pairs(bytes@, o2 as int, (rem - 1) as nat);
            if sub is Some {
                let p = sub->Some_0;
                assert(sp_pairs(bytes@, cur as int, rem) == Some((seq![x] + p.0, p.1)));
                assert(accv + (seq![x] + p.0) =~= accv.push(x) + p.0);
            } else {
                assert(sp_pairs(bytes@, cur as int, rem) is None);
            }
        }
        cur = o2;
        i = i + 1;
    }
    proof {
        assert(sp_pairs(bytes@, cur as int, 0) == Some((Seq::<(Seq<char>, u32)>::empty(), cur as int)));
        assert(pairs_view(acc@) + Seq::<(Seq<char>, u32)>::empty() =~= pairs_view(acc@));
    }
    Some((acc, cur))
}

fn parse_globals(bytes: &[u8], off: usize, n: u64) -> (r: Option<
    (Vec<(String, GlobalEntry)>, usize),
>)
    ensures
        r is Some <==> sp_globals(bytes@, off as int, n as nat) is Some,
        r matches Some(p) ==> sp_globals(bytes@, off as int, n as nat) == Some(
            (globals_view(p.0@), p.1 as int),
        ),
{
    let mut acc: Vec<(String, GlobalEntry)> = Vec::new();
    let mut cur = off;
    let mut i: u64 = 0;
    proof {
        assert(globals_view(acc@) =~= Seq::<(Seq<char>, GlobalEntry)>::empty());
    }
    while i < n
        invariant
            i <= n,
            (match sp_globals(bytes@, cur as int, (n - i) as nat) {
                Some(p) => sp_globals(bytes@, off as int, n as nat) == Some(
                    (globals_view(acc@) + p.0, p.1),
                ),
                None => sp_globals(bytes@, off as int, n as nat) is None,
            }),
        decreases n - i,
    {
        let ghost rem = (n - i) as nat;
        let (s, o1) = match crate::binfmt::read_string(bytes, cur) {
            Some(p) => p,
            None => {
                return None;
            },
        };
        let (c, o2) = match crate::binfmt::read_u32_le(bytes, o1) {
            Some(p) => p,
            None => {
                return None;
            },
        };
        let (t, o3) = match crate::binfmt::read_u64_le(bytes, o2) {
            Some(p) => p,
            None => {
                return None;
            },
        };
        let e = GlobalEntry { launch_count: c, last_launched: t };
        let ghost accv = globals_view(acc@);
        let ghost x = (s@, e);
        acc.push((s, e));
        proof {
            assert(globals_view(acc@) =~= accv.push(x));
            let sub = sp_globals(bytes@, o3 as int, (rem - 1) as nat);
            if sub is Some {
                let p = sub->Some_0;
                assert(sp_globals(bytes@, cur as int, rem) == Some((seq![x] + p.0, p.1)));
                assert(accv + (seq![x] + p.0) =~= accv.push(x) + p.0);
            } else {
                assert(sp_globals(bytes@, cur as int, rem) is None);
            }
        }
        cur = o3;
        i = i + 1;
    }
    proof {
        assert(sp_globals(bytes@, cur as int, 0) == Some(
            (Seq::<(Seq<char>, GlobalEntry)>::empty(), cur as int),
        ));
        assert(globals_view(acc@) + Seq::<(Seq<char>, GlobalEntry)>::empty() =~= globals_view(
            acc@,
        ));
    }
    Some((acc, cur))
}

fn parse_queries(bytes: &[u8], off: usize, n: u64) -> (r: Option<
    (Vec<(String, Vec<(String, u32)>)>, usize),
>)
    ensures
        r is Some <==> sp_queries(bytes@, off as int, n as nat) is Some,
        r matches Some(p) ==> sp_queries(bytes@, off as int, n as nat) == Some(
            (queries_view(p.0@), p.1 as int),
        ),
{
    let mut acc: Vec<(String, Vec<(String, u32)>)> = Vec::new();
    let mut cur = off;
    let mut i: u64 = 0;
    proof {
        assert(queries_view(acc@) =~= Seq::<(Seq<char>, Seq<(Seq<char>, u32)>)>::empty());
    }
    while i < n
        invariant
            i <= n,
            (match sp_queries(bytes@, cur as int, (n - i) as nat) {
                Some(p) => sp_queries(bytes@, off as int, n as nat) == Some(
                    (queries_view(acc@) + p.0, p.1),
                ),
                None => sp_queries(bytes@, off as int, n as nat) is None,
            }),
        decreases n - i,
    {
        let ghost rem = (n - i) as nat;
        let (s, o1) = match crate::binfmt::read_string(bytes, cur) {
            Some(p) => p,
            None => {
                return None;
            },
        };
        let (m, o2) = match crate::binfmt::read_u64_le(bytes, o1) {
            Some(p) => p,
            None => {
                return None;
            },
        };
        let (inner, o3) = match parse_pairs(bytes, o2, m) {
            Some(p) => p,
            None => {
                return None;
            },
        };
        let ghost accv = queries_view(acc@);
        let ghost x = (s@, pairs_view(inner@));
        acc.push((s, inner));
        proof {
            assert(queries_view(acc@) =~= accv.push(x));
            let sub = sp_queries(bytes@, o3 as int, (rem - 1) as nat);
            if sub is Some {
                let p = sub->Some_0;
                assert(sp_queries(bytes@, cur as int, rem) == Some((seq![x] + p.0, p.1)));
                assert(accv + (seq![x] + p.0) =~= accv.push(x) + p.0);
            } else {
                assert(sp_queries(bytes@, cur as int, rem) is None);
            }
        }
        cur = o3;
        i = i + 1;
    }
    proof {
        assert(sp_queries(bytes@, cur as int, 0) == Some(
            (Seq::<(Seq<char>, Seq<(Seq<char>, u32)>)>::empty(), cur as int),
        ));
        assert(queries_view(acc@) + Seq::<(Seq<char>, Seq<(Seq<char>, u32)>)>::empty()
            =~= queries_view(acc@));
    }
    Some((acc, cur))
}

/// Whether all keys in the map are distinct.
fn keys_unique_check<V>(m: &Vec<(String, V)>) -> (r: bool)
    ensures
        r == assoc_keys_unique(m@),
{
    let n = m.len();
    let mut i: usize = 0;
    while i < n
        invariant
            n == m@.len(),
            i <= n,
            forall|a: int, b: int| 0 <= a < b < m@.len() && b < i ==> m@[a].0@ != m@[b].0@,
        decreases n - i,
    {
        let mut j: usize = 0;
        while j < i
            invariant
                n == m@.len(),
                i < n,
                j <= i,
                forall|a: int| 0 <= a < j ==> m@[a].0@ != m@[i as int].0@,
            decreases i - j,
        {
            if str_eq(m[j].0.as_str(), m[i].0.as_str()) {
                return false;
            }
            j = j + 1;
        }
        i = i + 1;
    }
    true
}

impl HistoryData {
    /// Decode a persisted history file. `None` when the envelope, the
    /// contents, or the key discipline is not what this crate writes.
    pub fn decode(bytes: &[u8]) -> (r: Option<HistoryData>)
        ensures
            r is Some <==> spec_decode_history(bytes@) is Some,
            r matches Some(d) ==> d.wf() && spec_decode_history(bytes@) == Some(d.model()),
    {
        let payload = match crate::binfmt::deserialize_with_header(
            bytes,
            history_magic(),
            HISTORY_VERSION,
        ) {
            Some(p) => p,
            None => {
                return None;
            },
        };
        let pl = payload.as_slice();
        let (n1, o1) = match crate::binfmt::read_u64_le(pl, 0) {
            Some(p) => p,
            None => {
                return None;
            },
        };
        let (g, o2) = match parse_globals(pl, o1, n1) {
            Some(p) => p,
            None => {
                return None;
            },
        };
        let (n2, o3) = match crate::binfmt::read_u64_le(pl, o2) {
            Some(p) => p,
            None => {
                return None;
            },
        };
        let (q, o4) = match parse_queries(pl, o3, n2) {
            Some(p) => p,
            None => {
                return None;
            },
        };
        let (n3, o5) = match crate::binfmt::read_u64_le(pl, o4) {
            Some(p) => p,
            None => {
                return None;
            },
        };
        let (f, end) = match parse_pairs(pl, o5, n3) {
            Some(p) => p,
            None => {
                return None;
            },
        };
        let d = HistoryData { global: g, query: q, folder_expansion: f };
        let ghost m = d.model();
        if end != pl.len() {
            return None;
        }
        // the key discipline: unique keys everywhere
        let mut wf_ok = keys_unique_check(&d.global) && keys_unique_check(&d.query)
            && keys_unique_check(&d.folder_expansion);
        let mut qi: usize = 0;
        while qi < d.query.len()
            invariant
                qi <= d.query@.len(),
                wf_ok == (assoc_keys_unique(d.global@) && assoc_keys_unique(d.query@)
                    && assoc_keys_unique(d.folder_expansion@) && forall|l: int|
                    0 <= l < qi ==> assoc_keys_unique(#[trigger] d.query@[l].1@)),
            decreases d.query@.len() - qi,
        {
            wf_ok = wf_ok && keys_unique_check(&d.query[qi].1);
            qi = qi + 1;
        }
        proof {
            assert(wf_ok == d.wf());
            assert(munique(m.global) == assoc_keys_unique(d.global@)) by {
                lemma_view_unique_globals(d.global@);
            }
            assert(munique(m.query) == assoc_keys_unique(d.query@)) by {
                lemma_view_unique_queries(d.query@);
            }
            assert(munique(m.folder) == assoc_keys_unique(d.folder_expansion@)) by {
                lemma_view_unique_pairs(d.folder_expansion@);
            }
            assert forall|l: int| 0 <= l < d.query@.len() implies munique(#[trigger] m.query[l].1)
                == assoc_keys_unique(#[trigger] d.query@[l].1@) by {
                assert(m.query[l].1 == pairs_view(d.query@[l].1@));
                lemma_view_unique_pairs(d.query@[l].1@);
            }
            if d.wf() {
                assert forall|l: int| 0 <= l < m.query.len() implies munique(
                    #[trigger] m.query[l].1,
                ) by {
                    assert(assoc_keys_unique(d.query@[l].1@));
                }
                assert(model_wf(m));
            } else {
                if model_wf(m) {
                    assert forall|l: int| 0 <= l < d.query@.len() implies assoc_keys_unique(
                        #[trigger] d.query@[l].1@,
                    ) by {
                        assert(munique(m.query[l].1));
                    }
                    assert(d.wf());
                }
                assert(!model_wf(m));
            }
            assert(model_wf(m) == d.wf());
        }
        if !wf_ok {
            return None;
        }
        Some(d)
    }
}

proof fn lemma_view_unique_pairs(s: Seq<(String, u32)>)
    ensures
        munique(pairs_view(s)) == assoc_keys_unique(s),
{
    let v = pairs_view(s);
    assert(forall|i: int| 0 <= i < s.len() ==> (#[trigger] v[i]).0 == s[i].0@);
    if munique(v) {
        assert forall|i: int, j: int| 0 <= i < j < s.len() implies s[i].0@ != s[j].0@ by {
            assert(v[i].0 != v[j].0);
        }
    }
    if assoc_keys_unique(s) {
        assert forall|i: int, j: int| 0 <= i < j < v.len() implies v[i].0 != v[j].0 by {
            assert(s[i].0@ != s[j].0@);
        }
    }
}

proof fn lemma_view_unique_globals(s: Seq<(String, GlobalEntry)>)
    ensures
        munique(globals_view(s)) == assoc_keys_unique(s),
{
    let v = globals_view(s);
    assert(forall|i: int| 0 <= i < s.len() ==> (#[trigger] v[i]).0 == s[i].0@);
    if munique(v) {
        assert forall|i: int, j: int| 0 <= i < j < s.len() implies s[i].0@ != s[j].0@ by {
            assert(v[i].0 != v[j].0);
        }
    }
    if assoc_keys_unique(s) {
        assert forall|i: int, j: int| 0 <= i < j < v.len() implies v[i].0 != v[j].0 by {
            assert(s[i].0@ != s[j].0@);
        }
    }
}

proof fn lemma_view_unique_queries(s: Seq<(String, Vec<(String, u32)>)>)
    ensures
        munique(queries_view(s)) == assoc_keys_unique(s),
{
    let v = queries_view(s);
    assert(forall|i: int| 0 <= i < s.len() ==> (#[trigger] v[i]).0 == s[i].0@);
    if munique(v) {
        assert forall|i: int, j: int| 0 <= i < j < s.len() implies s[i].0@ != s[j].0@ by {
            assert(v[i].0 != v[j].0);
        }
    }
    if assoc_keys_unique(s) {
        assert forall|i: int, j: int| 0 <= i < j < v.len() implies v[i].0 != v[j].0 by {
            assert(s[i].0@ != s[j].0@);
        }
    }
}

proof fn lemma_sp_pairs_of_enc(b: Seq<u8>, off: int, s: Seq<(Seq<char>, u32)>)
    requires
        0 <= off,
        off + enc_pairs(s).len() <= b.len(),
        b.subrange(off, off + enc_pairs(s).len()) == enc_pairs(s),
        forall|i: int| 0 <= i < s.len() ==> encodable_str(#[trigger] s[i].0),
    ensures
        sp_pairs(b, off, s.len() as nat) == Some((s, off + enc_pairs(s).len())),
    decreases s.len(),
{
    if s.len() == 0 {
        assert(s =~= Seq::<(Seq<char>, u32)>::empty());
    } else {
        let e0 = enc_pair(s[0]);
        let rest = enc_pairs(s.skip(1));
        assert(enc_pairs(s) == e0 + rest);
        crate::binfmt::lemma_split_subrange(b, off, e0, rest);
        let es = crate::binfmt::spec_enc_string(s[0].0);
        let eu = crate::binfmt::spec_u32_le(s[0].1);
        assert(e0 == es + eu);
        crate::binfmt::lemma_split_subrange(b, off, es, eu);
        crate::binfmt::lemma_read_string_after_write(b, off, s[0].0);
        crate::binfmt::lemma_read_u32_after_write(b, off + es.len(), s[0].1);
        assert(forall|i: int| 0 <= i < s.skip(1).len() ==> encodable_str(
            #[trigger] s.skip(1)[i].0,
        )) by {
            assert(forall|i: int| 0 <= i < s.skip(1).len() ==> s.skip(1)[i] == s[i + 1]);
        }
        lemma_sp_pairs_of_enc(b, off + e0.len(), s.skip(1));
        assert(seq![(s[0].0, s[0].1)] + s.skip(1) =~= s);
    }
}

proof fn lemma_sp_globals_of_enc(b: Seq<u8>, off: int, s: Seq<(Seq<char>, GlobalEntry)>)
    requires
        0 <= off,
        off + enc_globals(s).len() <= b.len(),
        b.subrange(off, off + enc_globals(s).len()) == enc_globals(s),
        forall|i: int| 0 <= i < s.len() ==> encodable_str(#[trigger] s[i].0),
    ensures
        sp_globals(b, off, s.len() as nat) == Some((s, off + enc_globals(s).len())),
    decreases s.len(),
{
    if s.len() == 0 {
        assert(s =~= Seq::<(Seq<char>, GlobalEntry)>::empty());
    } else {
        let e0 = enc_global_entry(s[0]);
        let rest = enc_globals(s.skip(1));
        assert(enc_globals(s) == e0 + rest);
        crate::binfmt::lemma_split_subrange(b, off, e0, rest);
        let es = crate::binfmt::spec_enc_string(s[0].0);
        let ec = crate::binfmt::spec_u32_le(s[0].1.launch_count);
        let et = crate::binfmt::spec_u64_le(s[0].1.last_launched);
        assert(e0 == es + (ec + et)) by {
            assert(es + ec + et =~= es + (ec + et));
        }
        crate::binfmt::lemma_split_subrange(b, off, es, ec + et);
        crate::binfmt::lemma_split_subrange(b, off + es.len(), ec, et);
        crate::binfmt::lemma_read_string_after_write(b, off, s[0].0);
        crate::binfmt::lemma_read_u32_after_write(b, off + es.len(), s[0].1.launch_count);
        crate::binfmt::lemma_read_u64_after_write(b, off + es.len() + 4, s[0].1.last_launched);
        assert(forall|i: int| 0 <= i < s.skip(1).len() ==> encodable_str(
            #[trigger] s.skip(1)[i].0,
        )) by {
            assert(forall|i: int| 0 <= i < s.skip(1).len() ==> s.skip(1)[i] == s[i + 1]);
        }
        lemma_sp_globals_of_enc(b, off + e0.len(), s.skip(1));
        let e = GlobalEntry { launch_count: s[0].1.launch_count, last_launched: s[0].1.last_launched };
        assert(e == s[0].1);
        assert(seq![(s[0].0, e)] + s.skip(1) =~= s);
    }
}

proof fn lemma_sp_queries_of_enc(b: Seq<u8>, off: int, s: Seq<(Seq<char>, Seq<(Seq<char>, u32)>)>)
    requires
        0 <= off,
        off + enc_queries(s).len() <= b.len(),
        b.subrange(off, off + enc_queries(s).len()) == enc_queries(s),
        forall|i: int| 0 <= i < s.len() ==> encodable_str(#[trigger] s[i].0) && s[i].1.len()
            <= u64::MAX && (forall|j: int| 0 <= j < s[i].1.len() ==> encodable_str(
            #[trigger] s[i].1[j].0,
        )),
    ensures
        sp_queries(b, off, s.len() as nat) == Some((s, off + enc_queries(s).len())),
    decreases s.len(),
{
    if s.len() == 0 {
        assert(s =~= Seq::<(Seq<char>, Seq<(Seq<char>, u32)>)>::empty());
    } else {
        let e0 = enc_query_entry(s[0]);
        let rest = enc_queries(s.skip(1));
        assert(enc_queries(s) == e0 + rest);
        crate::binfmt::lemma_split_subrange(b, off, e0, rest);
        let es = crate::binfmt::spec_enc_string(s[0].0);
        let en = crate::binfmt::spec_u64_le(s[0].1.len() as u64);
        let ep = enc_pairs(s[0].1);
        assert(e0 == es + (en + ep)) by {
            assert(es + en + ep =~= es + (en + ep));
        }
        crate::binfmt::lemma_split_subrange(b, off, es, en + ep);
        crate::binfmt::lemma_split_subrange(b, off + es.len(), en, ep);
        crate::binfmt::lemma_read_string_after_write(b, off, s[0].0);
        crate::binfmt::lemma_read_u64_after_write(b, off + es.len(), s[0].1.len() as u64);
        lemma_sp_pairs_of_enc(b, off + es.len() + 8, s[0].1);
        assert((s[0].1.len() as u64) as nat == s[0].1.len());
        assert(forall|i: int| 0 <= i < s.skip(1).len() ==> s.skip(1)[i] == s[i + 1]);
        lemma_sp_queries_of_enc(b, off + e0.len(), s.skip(1));
        assert(seq![(s[0].0, s[0].1)] + s.skip(1) =~= s);
    }
}

/// Decoding the encoding of any well-formed history yields it back: the
/// persisted file format loses nothing.
#[verifier::rlimit(100)]
pub proof fn lemma_history_round_trip(m: HistoryModel)
    requires
        model_wf(m),
        encodable_history(m),
    ensures
        spec_decode_history(spec_history_file(m)) == Some(m),
{
    let pl = spec_history_payload(m);
    let bytes = spec_history_file(m);
    crate::binfmt::lemma_header_roundtrip(history_magic_spec(), HISTORY_VERSION, pl);
    let n1 = crate::binfmt::spec_u64_le(m.global.len() as u64);
    let eg = enc_globals(m.global);
    let n2 = crate::binfmt::spec_u64_le(m.query.len() as u64);
    let eq = enc_queries(m.query);
    let n3 = crate::binfmt::spec_u64_le(m.folder.len() as u64);
    let ef = enc_pairs(m.folder);
    assert(pl == n1 + eg + n2 + eq + n3 + ef);
    assert(pl.subrange(0, pl.len() as int) =~= pl);
    assert(pl == n1 + (eg + (n2 + (eq + (n3 + ef))))) by {
        assert(n1 + eg + n2 + eq + n3 + ef =~= n1 + (eg + (n2 + (eq + (n3 + ef)))));
    }
    let o0: int = 0;
    crate::binfmt::lemma_split_subrange(pl, o0, n1, eg + (n2 + (eq + (n3 + ef))));
    crate::binfmt::lemma_read_u64_after_write(pl, o0, m.global.len() as u64);
    let o1 = o0 + 8;
    crate::binfmt::lemma_split_subrange(pl, o1, eg, n2 + (eq + (n3 + ef)));
    lemma_sp_globals_of_enc(pl, o1, m.global);
    let o2 = o1 + eg.len();
    crate::binfmt::lemma_split_subrange(pl, o2, n2, eq + (n3 + ef));
    crate::binfmt::lemma_read_u64_after_write(pl, o2, m.query.len() as u64);
    let o3 = o2 + 8;
    crate::binfmt::lemma_split_subrange(pl, o3, eq, n3 + ef);
    lemma_sp_queries_of_enc(pl, o3, m.query);
    let o4 = o3 + eq.len();
    crate::binfmt::lemma_split_subrange(pl, o4, n3, ef);
    crate::binfmt::lemma_read_u64_after_write(pl, o4, m.folder.len() as u64);
    let o5 = o4 + 8;
    assert(pl.subrange(o5, o5 + ef.len()) == ef);
    lemma_sp_pairs_of_enc(pl, o5, m.folder);
    assert((m.global.len() as u64) as nat == m.global.len());
    assert((m.query.len() as u64) as nat == m.query.len());
    assert((m.folder.len() as u64) as nat == m.folder.len());
    assert(o5 + ef.len() == pl.len());
}

/// `assoc_get` is `None` exactly when the key is absent.
pub proof fn lemma_assoc_get_none_from_has<V>(m: Seq<(String, V)>, k: Seq<char>)
    requires
        !assoc_has(m, k),
    ensures
        assoc_get(m, k) is None,
{
    assert(forall|j: int| 0 <= j < m.len() ==> m[j].0@ != k) by {
        assert forall|j: int| 0 <= j < m.len() implies m[j].0@ != k by {
            if m[j].0@ == k {
                assert(assoc_has(m, k));
            }
        }
    }
    lemma_assoc_get_none(m, k);
}

} // verus!
