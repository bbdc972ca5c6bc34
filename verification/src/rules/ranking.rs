use vstd::prelude::*;

use crate::hand_rank::{HandRank, HandRankSpec, hand_rank_order, lemma_hand_rank_order_zero};

verus! {

/// The strongest hand among the entries (the first one among equals).
pub open spec fn best_of(s: Seq<(u128, HandRankSpec)>) -> HandRankSpec
    decreases s.len(),
{
    if s.len() <= 1 {
        s[0].1
    } else {
        let b = best_of(s.drop_last());
        if hand_rank_order(s.last().1, b) > 0 {
            s.last().1
        } else {
            b
        }
    }
}

/// The IDs of the entries whose hand ties with `b`, in order.
pub open spec fn ids_tying(s: Seq<(u128, HandRankSpec)>, b: HandRankSpec) -> Seq<u128>
    decreases s.len(),
{
    if s.len() == 0 {
        Seq::empty()
    } else if hand_rank_order(s.last().1, b) == 0 {
        ids_tying(s.drop_last(), b).push(s.last().0)
    } else {
        ids_tying(s.drop_last(), b)
    }
}

/// The entries whose hand does not tie with `b`, in order.
pub open spec fn not_tying(s: Seq<(u128, HandRankSpec)>, b: HandRankSpec) -> Seq<(u128, HandRankSpec)>
    decreases s.len(),
{
    if s.len() == 0 {
        Seq::empty()
    } else if hand_rank_order(s.last().1, b) == 0 {
        not_tying(s.drop_last(), b)
    } else {
        not_tying(s.drop_last(), b).push(s.last())
    }
}

/// The strongest hand is one of the hands.
pub proof fn lemma_best_of_attained(s: Seq<(u128, HandRankSpec)>)
    requires
        s.len() > 0,
    ensures
        exists|i: int| 0 <= i < s.len() && (#[trigger] s[i]).1 == best_of(s),
    decreases s.len(),
{
    if s.len() == 1 {
        assert(s[0].1 == best_of(s));
    } else {
        lemma_best_of_attained(s.drop_last());
        let b = best_of(s.drop_last());
        if hand_rank_order(s.last().1, b) > 0 {
            assert(s[s.len() - 1] == s.last());
        } else {
            let i = choose|i: int| 0 <= i < s.drop_last().len() && (#[trigger] s.drop_last()[i]).1 == b;
            assert(s[i] == s.drop_last()[i]);
        }
    }
}

/// No hand is stronger than the strongest.
pub proof fn lemma_best_of_max(s: Seq<(u128, HandRankSpec)>)
    requires
        s.len() > 0,
    ensures
        forall|i: int| 0 <= i < s.len() ==> hand_rank_order((#[trigger] s[i]).1, best_of(s)) <= 0,
    decreases s.len(),
{
    if s.len() == 1 {
        lemma_hand_rank_order_zero(s[0].1, s[0].1);
    } else {
        let q = s.drop_last();
        lemma_best_of_max(q);
        let b = best_of(q);
        assert forall|i: int| 0 <= i < s.len() implies hand_rank_order((#[trigger] s[i]).1, best_of(s)) <= 0 by {
            if hand_rank_order(s.last().1, b) > 0 {
                if i < s.len() - 1 {
                    assert(s[i] == q[i]);
                    crate::hand_rank::lemma_hand_rank_order_antisymmetric(s.last().1, b);
                    crate::hand_rank::lemma_hand_rank_order_transitive(s[i].1, b, s.last().1);
                } else {
                    lemma_hand_rank_order_zero(s.last().1, s.last().1);
                }
            } else {
                if i < s.len() - 1 {
                    assert(s[i] == q[i]);
                } else {
                    assert(s[i] == s.last());
                }
            }
        }
    }
}

/// Splitting by a hand that occurs leaves fewer entries untied.
pub proof fn lemma_not_tying_len(s: Seq<(u128, HandRankSpec)>, b: HandRankSpec)
    ensures
        not_tying(s, b).len() + ids_tying(s, b).len() == s.len(),
        (exists|i: int| 0 <= i < s.len() && (#[trigger] s[i]).1 == b) ==> not_tying(s, b).len() < s.len(),
    decreases s.len(),
{
    if s.len() > 0 {
        lemma_not_tying_len(s.drop_last(), b);
        if exists|i: int| 0 <= i < s.len() && (#[trigger] s[i]).1 == b {
            let i = choose|i: int| 0 <= i < s.len() && (#[trigger] s[i]).1 == b;
            lemma_hand_rank_order_zero(b, b);
            if i < s.len() - 1 {
                assert(s.drop_last()[i] == s[i]);
            } else {
                assert(s[i] == s.last());
            }
        }
    }
}

/// The IDs grouped by hand strength, strongest first; within a group, in the order of the
/// entries. This is what sorting the entries by hand, strongest first and keeping the order
/// of equals, and then grouping equal hands gives.
pub open spec fn strength_groups(s: Seq<(u128, HandRankSpec)>) -> Seq<Seq<u128>>
    decreases s.len(),
{
    if s.len() == 0 {
        Seq::empty()
    } else {
        let b = best_of(s);
        proof {
            lemma_best_of_attained(s);
            lemma_not_tying_len(s, b);
        }
        seq![ids_tying(s, b)] + strength_groups(not_tying(s, b))
    }
}

/// Every ID in a group comes from an entry.
pub proof fn lemma_strength_groups_ids(s: Seq<(u128, HandRankSpec)>)
    ensures
        forall|i: int, j: int|
            0 <= i < strength_groups(s).len() && 0 <= j < strength_groups(s)[i].len() ==> exists|k: int|
                0 <= k < s.len() && (#[trigger] s[k]).0 == #[trigger] strength_groups(s)[i][j],
    decreases s.len(),
{
    if s.len() > 0 {
        let b = best_of(s);
        lemma_best_of_attained(s);
        lemma_not_tying_len(s, b);
        let rest = not_tying(s, b);
        lemma_strength_groups_ids(rest);
        lemma_tying_from(s, b);
        let g = strength_groups(s);
        assert(g == seq![ids_tying(s, b)] + strength_groups(rest));
        assert forall|i: int, j: int| 0 <= i < g.len() && 0 <= j < g[i].len() implies exists|k: int|
            0 <= k < s.len() && (#[trigger] s[k]).0 == #[trigger] g[i][j] by {
            if i == 0 {
                assert(g[0] == ids_tying(s, b));
            } else {
                assert(g[i] == strength_groups(rest)[i - 1]);
                let q = choose|q: int| 0 <= q < rest.len() && (#[trigger] rest[q]).0 == strength_groups(rest)[i - 1][j];
                let k = choose|k: int| 0 <= k < s.len() && #[trigger] s[k] == rest[q];
                assert(s[k].0 == g[i][j]);
            }
        }
    }
}

/// The IDs tying and the entries not tying come from the entries.
pub proof fn lemma_tying_from(s: Seq<(u128, HandRankSpec)>, b: HandRankSpec)
    ensures
        forall|j: int| 0 <= j < ids_tying(s, b).len() ==> exists|k: int| 0 <= k < s.len() && (#[trigger] s[k]).0 == #[trigger] ids_tying(s, b)[j],
        forall|q: int| 0 <= q < not_tying(s, b).len() ==> exists|k: int| 0 <= k < s.len() && #[trigger] s[k] == #[trigger] not_tying(s, b)[q],
    decreases s.len(),
{
    if s.len() > 0 {
        let s1 = s.drop_last();
        lemma_tying_from(s1, b);
        assert(s[s.len() - 1] == s.last());
        assert forall|j: int| 0 <= j < ids_tying(s, b).len() implies exists|k: int| 0 <= k < s.len() && (#[trigger] s[k]).0 == #[trigger] ids_tying(s, b)[j] by {
            if j < ids_tying(s1, b).len() {
                assert(ids_tying(s, b)[j] == ids_tying(s1, b)[j]);
                let k = choose|k: int| 0 <= k < s1.len() && (#[trigger] s1[k]).0 == #[trigger] ids_tying(s1, b)[j];
                assert(s[k] == s1[k]);
            } else {
                assert(ids_tying(s, b)[j] == s.last().0);
            }
        }
        assert forall|q: int| 0 <= q < not_tying(s, b).len() implies exists|k: int| 0 <= k < s.len() && #[trigger] s[k] == #[trigger] not_tying(s, b)[q] by {
            if q < not_tying(s1, b).len() {
                assert(not_tying(s, b)[q] == not_tying(s1, b)[q]);
                let k = choose|k: int| 0 <= k < s1.len() && #[trigger] s1[k] == #[trigger] not_tying(s1, b)[q];
                assert(s[k] == s1[k]);
            } else {
                assert(not_tying(s, b)[q] == s.last());
            }
        }
    }
}

/// No two entries carry the same ID.
pub open spec fn distinct_ids(s: Seq<(u128, HandRankSpec)>) -> bool {
    forall|p: int, q: int| 0 <= p < s.len() && 0 <= q < s.len() && p != q ==> (#[trigger] s[p]).0 != (#[trigger] s[q]).0
}

/// Some entry carries the ID `id` and a hand that ties with `b`.
pub open spec fn has_tied_entry(s: Seq<(u128, HandRankSpec)>, b: HandRankSpec, id: u128) -> bool {
    exists|k: int| #![trigger s[k]] 0 <= k < s.len() && s[k].0 == id && hand_rank_order(s[k].1, b) == 0
}

/// The IDs tying with `b` come from entries whose hand is `b`'s equal; the entries left over
/// do not tie with `b`, and keep their IDs distinct; an entry tying with `b` has its ID among
/// those tying, and any other entry is among those left over.
pub proof fn lemma_tying_entries(s: Seq<(u128, HandRankSpec)>, b: HandRankSpec)
    ensures
        forall|j: int| 0 <= j < ids_tying(s, b).len() ==> has_tied_entry(s, b, #[trigger] ids_tying(s, b)[j]),
        forall|q: int| 0 <= q < not_tying(s, b).len() ==> hand_rank_order((#[trigger] not_tying(s, b)[q]).1, b) != 0,
        distinct_ids(s) ==> distinct_ids(not_tying(s, b)),
        forall|k: int| 0 <= k < s.len() && hand_rank_order((#[trigger] s[k]).1, b) == 0 ==> ids_tying(s, b).contains(s[k].0),
        forall|k: int| 0 <= k < s.len() && hand_rank_order((#[trigger] s[k]).1, b) != 0 ==> not_tying(s, b).contains(s[k]),
    decreases s.len(),
{
    if s.len() > 0 {
        let s1 = s.drop_last();
        lemma_tying_entries(s1, b);
        lemma_tying_from(s1, b);
        assert(s[s.len() - 1] == s.last());
        assert forall|k: int| 0 <= k < s.len() && hand_rank_order((#[trigger] s[k]).1, b) == 0 implies ids_tying(s, b).contains(s[k].0) by {
            let t = ids_tying(s, b);
            if k < s.len() - 1 {
                assert(s[k] == s1[k]);
                let x = choose|x: int| 0 <= x < ids_tying(s1, b).len() && ids_tying(s1, b)[x] == s1[k].0;
                assert(t[x] == ids_tying(s1, b)[x]);
            } else {
                assert(t[t.len() - 1] == s[k].0);
            }
        }
        assert forall|k: int| 0 <= k < s.len() && hand_rank_order((#[trigger] s[k]).1, b) != 0 implies not_tying(s, b).contains(s[k]) by {
            let r = not_tying(s, b);
            if k < s.len() - 1 {
                assert(s[k] == s1[k]);
                let x = choose|x: int| 0 <= x < not_tying(s1, b).len() && not_tying(s1, b)[x] == s1[k];
                assert(r[x] == not_tying(s1, b)[x]);
            } else {
                assert(r[r.len() - 1] == s[k]);
            }
        }
        let r = not_tying(s, b);
        let r1 = not_tying(s1, b);
        assert forall|q: int| 0 <= q < r.len() implies hand_rank_order((#[trigger] r[q]).1, b) != 0 by {
            if q < r1.len() {
                assert(r[q] == r1[q]);
            }
        }
        if distinct_ids(s) {
            assert forall|p: int, q: int| 0 <= p < s1.len() && 0 <= q < s1.len() && p != q implies (#[trigger] s1[p]).0 != (#[trigger] s1[q]).0 by {
                assert(s[p] == s1[p] && s[q] == s1[q]);
            }
            assert forall|p: int, q: int| 0 <= p < r.len() && 0 <= q < r.len() && p != q implies (#[trigger] r[p]).0 != (#[trigger] r[q]).0 by {
                if p < r1.len() && q < r1.len() {
                    assert(r[p] == r1[p] && r[q] == r1[q]);
                } else if p < r1.len() {
                    assert(r[p] == r1[p] && r[q] == s.last());
                    let k = choose|k: int| 0 <= k < s1.len() && #[trigger] s1[k] == #[trigger] r1[p];
                    assert(s[k] == s1[k]);
                } else {
                    assert(r[q] == r1[q] && r[p] == s.last());
                    let k = choose|k: int| 0 <= k < s1.len() && #[trigger] s1[k] == #[trigger] r1[q];
                    assert(s[k] == s1[k]);
                }
            }
        }
        let t = ids_tying(s, b);
        let t1 = ids_tying(s1, b);
        assert forall|j: int| 0 <= j < ids_tying(s, b).len() implies has_tied_entry(s, b, #[trigger] ids_tying(s, b)[j]) by {
            if j < t1.len() {
                assert(t[j] == t1[j]);
                assert(has_tied_entry(s1, b, t1[j]));
                let k = choose|k: int| #![trigger s1[k]] 0 <= k < s1.len() && s1[k].0 == t1[j] && hand_rank_order(s1[k].1, b) == 0;
                assert(s[k] == s1[k]);
            } else {
                assert(t[j] == s[s.len() - 1].0);
            }
        }
    }
}

/// The winning order: among entries with distinct IDs, every hand of an earlier group beats
/// every hand of a later one, the hands of one group tie, the hands of the first group are at
/// least as strong as every hand at the table, every entry's ID stands in a group, and no
/// group is empty.
pub proof fn lemma_strength_groups_order(s: Seq<(u128, HandRankSpec)>)
    requires
        distinct_ids(s),
    ensures
        forall|i: int, j: int, k1: int, k2: int|
            #![trigger strength_groups(s)[i].contains(s[k1].0), strength_groups(s)[j].contains(s[k2].0)]
            0 <= i < j < strength_groups(s).len() && 0 <= k1 < s.len() && 0 <= k2 < s.len()
                && strength_groups(s)[i].contains(s[k1].0) && strength_groups(s)[j].contains(s[k2].0)
                ==> hand_rank_order(s[k1].1, s[k2].1) > 0,
        forall|i: int, k1: int, k2: int|
            #![trigger strength_groups(s)[i].contains(s[k1].0), strength_groups(s)[i].contains(s[k2].0)]
            0 <= i < strength_groups(s).len() && 0 <= k1 < s.len() && 0 <= k2 < s.len()
                && strength_groups(s)[i].contains(s[k1].0) && strength_groups(s)[i].contains(s[k2].0)
                ==> s[k1].1 == s[k2].1,
        forall|k: int, e: int|
            #![trigger strength_groups(s)[0].contains(s[k].0), s[e]]
            0 < strength_groups(s).len() && 0 <= k < s.len() && 0 <= e < s.len()
                && strength_groups(s)[0].contains(s[k].0) ==> hand_rank_order(s[k].1, s[e].1) >= 0,
        forall|k: int| 0 <= k < s.len() ==> in_some_group(strength_groups(s), (#[trigger] s[k]).0),
        forall|i: int| 0 <= i < strength_groups(s).len() ==> (#[trigger] strength_groups(s)[i]).len() > 0,
    decreases s.len(),
{
    if s.len() > 0 {
        let b = best_of(s);
        lemma_best_of_attained(s);
        lemma_not_tying_len(s, b);
        let t = ids_tying(s, b);
        let r = not_tying(s, b);
        let gr = strength_groups(r);
        let g = strength_groups(s);
        assert(g == seq![t] + gr);
        lemma_tying_entries(s, b);
        lemma_tying_from(s, b);
        lemma_strength_groups_ids(r);
        lemma_best_of_max(s);
        lemma_strength_groups_order(r);
        assert forall|k: int| 0 <= k < s.len() && #[trigger] t.contains(s[k].0) implies s[k].1 == b by {
            let jj = choose|jj: int| 0 <= jj < t.len() && t[jj] == s[k].0;
            assert(has_tied_entry(s, b, t[jj]));
            let k2 = choose|k2: int| #![trigger s[k2]] 0 <= k2 < s.len() && s[k2].0 == t[jj] && hand_rank_order(s[k2].1, b) == 0;
            assert(k2 == k);
            lemma_hand_rank_order_zero(s[k].1, b);
        }
        assert forall|i: int, k: int| 0 <= i < gr.len() && 0 <= k < s.len() && #[trigger] gr[i].contains(s[k].0) implies exists|q: int|
            0 <= q < r.len() && #[trigger] r[q] == s[k] by {
            let jj = choose|jj: int| 0 <= jj < gr[i].len() && gr[i][jj] == s[k].0;
            let q = choose|q: int| 0 <= q < r.len() && (#[trigger] r[q]).0 == #[trigger] gr[i][jj];
            let k2 = choose|k2: int| 0 <= k2 < s.len() && #[trigger] s[k2] == #[trigger] r[q];
            assert(k2 == k);
        }
        assert forall|i: int, j: int, k1: int, k2: int|
            0 <= i < j < g.len() && 0 <= k1 < s.len() && 0 <= k2 < s.len() && #[trigger] g[i].contains(s[k1].0)
                && #[trigger] g[j].contains(s[k2].0) implies hand_rank_order(s[k1].1, s[k2].1) > 0 by {
            assert(g[j] == gr[j - 1]);
            assert(gr[j - 1].contains(s[k2].0));
            let q2 = choose|q: int| 0 <= q < r.len() && #[trigger] r[q] == s[k2];
            if i == 0 {
                assert(g[0] == t);
                assert(s[k1].1 == b);
                assert(hand_rank_order(r[q2].1, b) != 0);
                crate::hand_rank::lemma_hand_rank_order_antisymmetric(b, s[k2].1);
            } else {
                assert(g[i] == gr[i - 1]);
                assert(gr[i - 1].contains(s[k1].0));
                let q1 = choose|q: int| 0 <= q < r.len() && #[trigger] r[q] == s[k1];
                assert(gr[i - 1].contains(r[q1].0) && gr[j - 1].contains(r[q2].0));
            }
        }
        assert forall|i: int, k1: int, k2: int|
            0 <= i < g.len() && 0 <= k1 < s.len() && 0 <= k2 < s.len() && #[trigger] g[i].contains(s[k1].0)
                && #[trigger] g[i].contains(s[k2].0) implies s[k1].1 == s[k2].1 by {
            if i == 0 {
                assert(g[0] == t);
            } else {
                assert(g[i] == gr[i - 1]);
                assert(gr[i - 1].contains(s[k1].0) && gr[i - 1].contains(s[k2].0));
                let q1 = choose|q: int| 0 <= q < r.len() && #[trigger] r[q] == s[k1];
                let q2 = choose|q: int| 0 <= q < r.len() && #[trigger] r[q] == s[k2];
                assert(gr[i - 1].contains(r[q1].0) && gr[i - 1].contains(r[q2].0));
            }
        }
        assert forall|k: int, e: int| 0 < g.len() && 0 <= k < s.len() && 0 <= e < s.len() && #[trigger] g[0].contains(s[k].0)
            implies hand_rank_order(s[k].1, #[trigger] s[e].1) >= 0 by {
            assert(g[0] == t);
            assert(s[k].1 == b);
            assert(hand_rank_order(s[e].1, b) <= 0);
            crate::hand_rank::lemma_hand_rank_order_antisymmetric(b, s[e].1);
        }
        assert forall|k: int| 0 <= k < s.len() implies in_some_group(g, (#[trigger] s[k]).0) by {
            if hand_rank_order(s[k].1, b) == 0 {
                assert(g[0] == t);
                assert(g[0].contains(s[k].0));
            } else {
                assert(r.contains(s[k]));
                let q = choose|q: int| 0 <= q < r.len() && r[q] == s[k];
                assert(in_some_group(gr, r[q].0));
                let i = choose|i: int| 0 <= i < gr.len() && gr[i].contains(r[q].0);
                assert(g[i + 1] == gr[i]);
                assert(g[i + 1].contains(s[k].0));
            }
        }
        assert forall|i: int| 0 <= i < g.len() implies (#[trigger] g[i]).len() > 0 by {
            if i == 0 {
                let k = choose|k: int| 0 <= k < s.len() && (#[trigger] s[k]).1 == b;
                lemma_hand_rank_order_zero(b, b);
                assert(t.contains(s[k].0));
            } else {
                assert(g[i] == gr[i - 1]);
            }
        }
    }
}

/// `id` stands in one of the groups.
pub open spec fn in_some_group(g: Seq<Seq<u128>>, id: u128) -> bool {
    exists|i: int| 0 <= i < g.len() && #[trigger] g[i].contains(id)
}

/// The entries as mathematical values.
pub open spec fn entries_view(e: Seq<(u128, HandRank)>) -> Seq<(u128, HandRankSpec)> {
    e.map_values(|x: (u128, HandRank)| (x.0, x.1@))
}

/// The entries at positions `idx`.
pub open spec fn pick(e: Seq<(u128, HandRankSpec)>, idx: Seq<usize>) -> Seq<(u128, HandRankSpec)> {
    idx.map_values(|k: usize| e[k as int])
}

/// Groups the players' IDs by the strength of their hands, strongest first; the players of a
/// group tie, and keep the order of the entries.
pub fn group_by_strength(entries: &Vec<(u128, HandRank)>) -> (groups: Vec<Vec<u128>>)
    ensures
        groups@.map_values(|g: Vec<u128>| g@) == strength_groups(entries_view(entries@)),
{
    let ghost e = entries_view(entries@);
    let mut idx: Vec<usize> = Vec::new();
    let mut k: usize = 0;
    while k < entries.len()
        invariant
            k <= entries@.len(),
            idx@.len() == k,
            forall|j: int| 0 <= j < k ==> #[trigger] idx@[j] == j,
        decreases entries@.len() - k,
    {
        idx.push(k);
        k = k + 1;
    }
    assert(pick(e, idx@) =~= e);
    let mut groups: Vec<Vec<u128>> = Vec::new();
    assert(groups@.map_values(|g: Vec<u128>| g@) =~= Seq::<Seq<u128>>::empty());
    while idx.len() > 0
        invariant
            e == entries_view(entries@),
            forall|j: int| 0 <= j < idx@.len() ==> #[trigger] idx@[j] < entries@.len(),
            groups@.map_values(|g: Vec<u128>| g@) + strength_groups(pick(e, idx@)) == strength_groups(e),
        decreases idx@.len(),
    {
        let ghost rem = pick(e, idx@);
        // the strongest remaining hand, the first among equals
        let mut best: usize = idx[0];
        let mut j: usize = 1;
        assert(rem.subrange(0, 1) =~= seq![rem[0]]);
        while j < idx.len()
            invariant
                1 <= j <= idx@.len(),
                rem == pick(e, idx@),
                e == entries_view(entries@),
                forall|q: int| 0 <= q < idx@.len() ==> #[trigger] idx@[q] < entries@.len(),
                best < entries@.len(),
                e[best as int].1 == best_of(rem.subrange(0, j as int)),
            decreases idx@.len() - j,
        {
            let c = entries[idx[j]].1.compare(&entries[best].1);
            assert(rem.subrange(0, j + 1).drop_last() =~= rem.subrange(0, j as int));
            assert(rem.subrange(0, j + 1).last() == e[idx@[j as int] as int]);
            if c > 0 {
                best = idx[j];
            }
            j = j + 1;
        }
        assert(rem.subrange(0, idx@.len() as int) =~= rem);
        let ghost b = e[best as int].1;
        // split the remaining entries into those tying with it and the others
        let mut group: Vec<u128> = Vec::new();
        let mut rest: Vec<usize> = Vec::new();
        let mut m: usize = 0;
        assert(rem.subrange(0, 0) =~= Seq::<(u128, HandRankSpec)>::empty());
        while m < idx.len()
            invariant
                m <= idx@.len(),
                rem == pick(e, idx@),
                e == entries_view(entries@),
                forall|q: int| 0 <= q < idx@.len() ==> #[trigger] idx@[q] < entries@.len(),
                forall|q: int| 0 <= q < rest@.len() ==> #[trigger] rest@[q] < entries@.len(),
                best < entries@.len(),
                b == e[best as int].1,
                group@ == ids_tying(rem.subrange(0, m as int), b),
                pick(e, rest@) == not_tying(rem.subrange(0, m as int), b),
            decreases idx@.len() - m,
        {
            let x = idx[m];
            assert(rem.subrange(0, m + 1).drop_last() =~= rem.subrange(0, m as int));
            assert(rem.subrange(0, m + 1).last() == e[x as int]);
            if entries[x].1.compare(&entries[best].1) == 0 {
                group.push(entries[x].0);
            } else {
                let ghost before = rest@;
                rest.push(x);
                assert(pick(e, rest@) =~= pick(e, before).push(e[x as int]));
            }
            m = m + 1;
        }
        assert(rem.subrange(0, idx@.len() as int) =~= rem);
        proof {
            lemma_best_of_attained(rem);
            lemma_not_tying_len(rem, b);
        }
        let ghost before = groups@.map_values(|g: Vec<u128>| g@);
        groups.push(group);
        assert(groups@.map_values(|g: Vec<u128>| g@) =~= before.push(ids_tying(rem, b)));
        assert(before.push(ids_tying(rem, b)) + strength_groups(not_tying(rem, b)) =~= before + (seq![ids_tying(rem, b)]
            + strength_groups(not_tying(rem, b))));
        idx = rest;
    }
    assert(strength_groups(pick(e, idx@)) =~= Seq::<Seq<u128>>::empty());
    assert(groups@.map_values(|g: Vec<u128>| g@) + Seq::<Seq<u128>>::empty() =~= groups@.map_values(|g: Vec<u128>| g@));
    groups
}

} // verus!
