//! The ordering discipline shared by every ranked listing in this crate.
//!
//! Search results, recent-history listings, folder listings and history
//! pruning all sort by the same shape of key: a primary score (descending),
//! a secondary score (descending), a case-folded name (ascending), and the
//! position in the source list as the final tie break. With the position
//! included the order is strict and total over any list of items taken from
//! distinct positions, which is exactly what a stable sort over the first
//! three components yields.

use vstd::prelude::*;
use vstd::multiset::Multiset;

use crate::text::{lemma_lex_lt_connected, lemma_lex_lt_irrefl, lemma_lex_lt_trans, lex_lt,
    lex_lt_u32};

verus! {

/// One element of a ranked listing.
pub struct RankItem {
    /// Sorts descending: higher scores first.
    pub primary: i64,
    /// Sorts descending: higher values first.
    pub secondary: u64,
    /// Sorts ascending, lexicographically by code point.
    pub name_key: Vec<u32>,
    /// The position of the item in the source list; the final tie break,
    /// ascending.
    pub idx: usize,
}

/// `a` comes strictly before `b`.
pub open spec fn rank_lt(a: RankItem, b: RankItem) -> bool {
    if a.primary != b.primary {
        a.primary > b.primary
    } else if a.secondary != b.secondary {
        a.secondary > b.secondary
    } else if lex_lt(a.name_key@, b.name_key@) {
        true
    } else if lex_lt(b.name_key@, a.name_key@) {
        false
    } else {
        a.idx < b.idx
    }
}

/// `a` comes before `b` or carries exactly the same key.
pub open spec fn rank_le(a: RankItem, b: RankItem) -> bool {
    !rank_lt(b, a)
}

/// The four components of the keys of `a` and `b` coincide.
pub open spec fn rank_eq_key(a: RankItem, b: RankItem) -> bool {
    a.primary == b.primary && a.secondary == b.secondary && a.name_key@ == b.name_key@
        && a.idx == b.idx
}

pub proof fn lemma_rank_lt_asym(a: RankItem, b: RankItem)
    requires
        rank_lt(a, b),
    ensures
        !rank_lt(b, a),
{
    if rank_lt(b, a) {
        if a.primary == b.primary && a.secondary == b.secondary {
            if lex_lt(a.name_key@, b.name_key@) && lex_lt(b.name_key@, a.name_key@) {
                lemma_lex_lt_trans(a.name_key@, b.name_key@, a.name_key@);
                lemma_lex_lt_irrefl(a.name_key@);
            }
        }
    }
}

pub proof fn lemma_rank_connected(a: RankItem, b: RankItem)
    requires
        !rank_lt(a, b),
        !rank_lt(b, a),
    ensures
        rank_eq_key(a, b),
{
    if a.primary == b.primary && a.secondary == b.secondary {
        lemma_lex_lt_connected(a.name_key@, b.name_key@);
    }
}

pub proof fn lemma_rank_lt_trans(a: RankItem, b: RankItem, c: RankItem)
    requires
        rank_lt(a, b),
        rank_lt(b, c),
    ensures
        rank_lt(a, c),
{
    let an = a.name_key@;
    let bn = b.name_key@;
    let cn = c.name_key@;
    if a.primary == b.primary && b.primary == c.primary && a.secondary == b.secondary
        && b.secondary == c.secondary {
        if lex_lt(an, bn) {
            if lex_lt(bn, cn) {
                lemma_lex_lt_trans(an, bn, cn);
            } else {
                lemma_lex_lt_connected(bn, cn);
            }
        } else {
            lemma_lex_lt_connected(an, bn);
            if !lex_lt(bn, cn) {
                lemma_lex_lt_connected(bn, cn);
            }
        }
        lemma_lex_lt_irrefl(an);
    }
}

pub proof fn lemma_rank_le_trans(a: RankItem, b: RankItem, c: RankItem)
    requires
        rank_le(a, b),
        rank_le(b, c),
    ensures
        rank_le(a, c),
{
    if rank_lt(c, a) {
        if rank_lt(b, c) {
            if rank_lt(a, b) {
                lemma_rank_lt_trans(a, b, c);
                lemma_rank_lt_asym(a, c);
            } else {
                lemma_rank_connected(a, b);
            }
        } else {
            lemma_rank_connected(b, c);
        }
    }
}

/// Decide `rank_lt(*a, *b)`.
pub fn rank_lt_exec(a: &RankItem, b: &RankItem) -> (r: bool)
    ensures
        r == rank_lt(*a, *b),
{
    if a.primary != b.primary {
        return a.primary > b.primary;
    }
    if a.secondary != b.secondary {
        return a.secondary > b.secondary;
    }
    if lex_lt_u32(&a.name_key, &b.name_key) {
        return true;
    }
    if lex_lt_u32(&b.name_key, &a.name_key) {
        return false;
    }
    a.idx < b.idx
}

/// Inserting an element anywhere adds exactly it to the multiset.
proof fn lemma_insert_multiset<A>(s: Seq<A>, p: int, x: A)
    requires
        0 <= p <= s.len(),
    ensures
        s.insert(p, x).to_multiset() == s.to_multiset().insert(x),
{
    broadcast use vstd::seq_lib::group_to_multiset_ensures;

    let pre = s.take(p);
    let post = s.skip(p);
    assert(s.insert(p, x) =~= pre + (seq![x] + post));
    assert(s =~= pre + post);
    vstd::seq_lib::lemma_multiset_commutative(pre, post);
    vstd::seq_lib::lemma_multiset_commutative(pre, seq![x] + post);
    vstd::seq_lib::lemma_multiset_commutative(seq![x], post);
    assert(seq![x] =~= Seq::<A>::empty().push(x));
    assert(seq![x].to_multiset() =~= Multiset::<A>::empty().insert(x));
    assert(s.insert(p, x).to_multiset() =~= s.to_multiset().insert(x));
}

/// What a permutation of items with pairwise distinct positions preserves:
/// membership both ways, and pairwise distinct positions.
pub proof fn lemma_perm_facts(src: Seq<RankItem>, dst: Seq<RankItem>)
    requires
        dst.to_multiset() == src.to_multiset(),
        forall|i: int, j: int| 0 <= i < j < src.len() ==> src[i].idx != src[j].idx,
    ensures
        forall|k: int| 0 <= k < dst.len() ==> src.contains(#[trigger] dst[k]),
        forall|x: RankItem| src.contains(x) ==> dst.contains(x),
        forall|k1: int, k2: int| 0 <= k1 < k2 < dst.len() ==> dst[k1].idx != dst[k2].idx,
{
    broadcast use vstd::seq_lib::group_to_multiset_ensures, vstd::multiset::group_multiset_axioms;

    assert(src.no_duplicates()) by {
        assert forall|i: int, j: int|
            0 <= i < src.len() && 0 <= j < src.len() && i != j implies src[i] != src[j] by {
            if i < j {
                assert(src[i].idx != src[j].idx);
            } else {
                assert(src[j].idx != src[i].idx);
            }
        }
    }
    src.lemma_multiset_has_no_duplicates();
    assert(forall|x: RankItem| dst.to_multiset().contains(x) ==> dst.to_multiset().count(x) == 1);
    dst.lemma_multiset_has_no_duplicates_conv();
    assert forall|k: int| 0 <= k < dst.len() implies src.contains(#[trigger] dst[k]) by {
        assert(dst.to_multiset().count(dst[k]) > 0);
    }
    assert forall|x: RankItem| src.contains(x) implies dst.contains(x) by {
        assert(src.to_multiset().count(x) > 0);
    }
    assert forall|k1: int, k2: int| 0 <= k1 < k2 < dst.len() implies dst[k1].idx != dst[k2].idx by {
        if dst[k1].idx == dst[k2].idx {
            assert(src.contains(dst[k1]));
            assert(src.contains(dst[k2]));
            let i1 = choose|i: int| 0 <= i < src.len() && src[i] == dst[k1];
            let i2 = choose|i: int| 0 <= i < src.len() && src[i] == dst[k2];
            if i1 < i2 {
                assert(src[i1].idx != src[i2].idx);
            } else if i2 < i1 {
                assert(src[i2].idx != src[i1].idx);
            }
            assert(dst[k1] == dst[k2]);
        }
    }
}

/// Sort the items: ascending in `rank_lt`, so highest-ranked first.
///
/// The result is a permutation of the input, and consecutive elements obey
/// `rank_le`.
pub fn sort_rank_items(items: Vec<RankItem>) -> (r: Vec<RankItem>)
    ensures
        r@.to_multiset() == items@.to_multiset(),
        r@.len() == items@.len(),
        forall|i: int, j: int| 0 <= i < j < r@.len() ==> rank_le(r@[i], r@[j]),
{
    broadcast use vstd::seq_lib::group_to_multiset_ensures;

    let mut rest = items;
    let mut out: Vec<RankItem> = Vec::new();
    proof {
        assert(out@.to_multiset() =~= Multiset::<RankItem>::empty());
        assert(out@.to_multiset().add(rest@.to_multiset()) =~= rest@.to_multiset());
    }
    while rest.len() > 0
        invariant
            out@.to_multiset().add(rest@.to_multiset()) == items@.to_multiset(),
            out@.len() + rest@.len() == items@.len(),
            forall|i: int, j: int| 0 <= i < j < out@.len() ==> rank_le(out@[i], out@[j]),
        decreases rest@.len(),
    {
        let ghost rest0 = rest@;
        let x = rest.remove(0);
        proof {
            broadcast use vstd::multiset::group_multiset_axioms, vstd::seq_lib::group_to_multiset_ensures;

            assert(rest@ =~= rest0.remove(0));
            assert(rest0.contains(x)) by {
                assert(rest0[0] == x);
            }
            assert(rest0.to_multiset().count(x) > 0);
            assert(rest0.to_multiset() =~= rest@.to_multiset().insert(x));
        }
        let mut p: usize = 0;
        while p < out.len() && rank_lt_exec(&out[p], &x)
            invariant
                p <= out@.len(),
                forall|i: int| 0 <= i < p ==> rank_lt(#[trigger] out@[i], x),
            decreases out@.len() - p,
        {
            p = p + 1;
        }
        let ghost out0 = out@;
        proof {
            lemma_insert_multiset(out@, p as int, x);
            if (p as int) < out0.len() {
                assert(rank_le(x, out0[p as int]));
            }
        }
        out.insert(p, x);
        proof {
            out0.insert_ensures(p as int, x);
            assert forall|i: int, j: int| 0 <= i < j < out@.len() implies rank_le(
                out@[i],
                out@[j],
            ) by {
                if j < p {
                    assert(out@[i] == out0[i] && out@[j] == out0[j]);
                } else if j == p {
                    assert(out@[i] == out0[i] && out@[j] == x);
                    lemma_rank_lt_asym(out0[i], x);
                } else {
                    assert(out@[j] == out0[j - 1]);
                    if i < p {
                        assert(out@[i] == out0[i]);
                        if i < j - 1 {
                        } else {
                            lemma_rank_lt_asym(out0[i], x);
                            lemma_rank_le_trans(out0[i], x, out0[j - 1]);
                        }
                    } else if i == p {
                        assert(out@[i] == x);
                        if j - 1 == p {
                            assert(rank_le(x, out0[p as int]));
                        } else {
                            lemma_rank_le_trans(x, out0[p as int], out0[j - 1]);
                        }
                    } else {
                        assert(out@[i] == out0[i - 1]);
                    }
                }
            }
        }
    }
    proof {
        assert(rest@.to_multiset() =~= Multiset::<RankItem>::empty());
        assert(out@.to_multiset() =~= items@.to_multiset());
    }
    out
}

} // verus!
