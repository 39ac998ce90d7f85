use vstd::prelude::*;

use crate::edge::valid_nodes;
use crate::edge::Edge;
use crate::edge::MAX_EDGE_WEIGHT;
use vstd::seq_lib::lemma_multiset_commutative;

verus! {

/// Largest node count the cost sums are stated for; keeps every sum of
/// edge weights comfortably inside a `u64`.
pub const MAX_NODES: usize = 0x0400_0000;

/// Cost of walking a sequence of nodes from its first to its last
/// element: the sum of the weights of consecutive pairs.
pub open spec fn chain_cost<E: Edge>(s: Seq<E>) -> int
    decreases s.len(),
{
    if s.len() < 2 {
        0
    } else {
        s[0].wt(&s[1]) + chain_cost(s.drop_first())
    }
}

/// Cost of a closed tour: the chain cost plus the closing edge from the
/// last element back to the first.
pub open spec fn tour_cost<E: Edge>(s: Seq<E>) -> int
    recommends
        s.len() >= 1,
{
    if s.len() >= 1 {
        chain_cost(s) + s.last().wt(&s.first())
    } else {
        0
    }
}

/// The sequence `s` with the elements strictly after position `i` up to
/// and including position `j` in reverse order.
pub open spec fn reversed_seg<E>(s: Seq<E>, i: int, j: int) -> Seq<E>
    recommends
        0 <= i < j < s.len(),
{
    s.take(i + 1) + s.subrange(i + 1, j + 1).reverse() + s.skip(j + 1)
}

/// The change in tour cost that reversing the segment after `i` through
/// `j` produces: the two reconnected edges minus the two removed ones.
pub open spec fn two_opt_delta<E: Edge>(s: Seq<E>, i: int, j: int) -> int
    recommends
        0 <= i,
        i + 2 <= j,
        j < s.len(),
{
    let n = s.len() as int;
    s[i].wt(&s[j]) + s[i + 1].wt(&s[(j + 1) % n]) - s[i].wt(&s[i + 1]) - s[j].wt(&s[(j + 1) % n])
}

/// Chain cost distributes over concatenation, with one extra edge where
/// the two parts join.
pub proof fn lemma_chain_cost_concat<E: Edge>(a: Seq<E>, b: Seq<E>)
    ensures
        chain_cost(a + b) == chain_cost(a) + chain_cost(b) + if a.len() > 0 && b.len() > 0 {
            a.last().wt(&b.first())
        } else {
            0
        },
    decreases a.len(),
{
    if a.len() == 0 {
        assert(a + b =~= b);
    } else if a.len() == 1 {
        if b.len() == 0 {
            assert(a + b =~= a);
        } else {
            assert((a + b).drop_first() =~= b);
            assert((a + b)[0] == a.last());
            assert((a + b)[1] == b.first());
        }
    } else {
        assert((a + b).drop_first() =~= a.drop_first() + b);
        lemma_chain_cost_concat(a.drop_first(), b);
        assert(a.drop_first().last() == a.last());
    }
}

/// With symmetric weights, reversing a sequence keeps its chain cost.
pub proof fn lemma_chain_cost_reverse<E: Edge>(s: Seq<E>)
    requires
        valid_nodes(s),
    ensures
        chain_cost(s.reverse()) == chain_cost(s),
    decreases s.len(),
{
    if s.len() >= 2 {
        let rest = s.drop_first();
        assert(valid_nodes(rest)) by {
            assert forall|i: int| 0 <= i < rest.len() implies (#[trigger] rest[i]).wf() by {
                assert(rest[i] == s[i + 1]);
            }
            assert forall|i: int, j: int|
                0 <= i < rest.len() && 0 <= j < rest.len() implies (#[trigger] rest[i]).compat(
                #[trigger] &rest[j],
            ) by {
                assert(rest[i] == s[i + 1]);
                assert(rest[j] == s[j + 1]);
            }
        }
        lemma_chain_cost_reverse(rest);
        assert(s.reverse() =~= rest.reverse() + seq![s[0]]);
        lemma_chain_cost_concat(rest.reverse(), seq![s[0]]);
        assert(rest.reverse().last() == s[1]);
        let x = s[0];
        let y = s[1];
        x.edge_laws(&y);
    }
}

/// Restricting a valid node sequence to a subrange keeps it valid.
pub proof fn lemma_valid_nodes_subrange<E: Edge>(s: Seq<E>, lo: int, hi: int)
    requires
        valid_nodes(s),
        0 <= lo <= hi <= s.len(),
    ensures
        valid_nodes(s.subrange(lo, hi)),
{
    let sub = s.subrange(lo, hi);
    assert forall|i: int| 0 <= i < sub.len() implies (#[trigger] sub[i]).wf() by {
        assert(sub[i] == s[lo + i]);
    }
    assert forall|i: int, j: int|
        0 <= i < sub.len() && 0 <= j < sub.len() implies (#[trigger] sub[i]).compat(
        #[trigger] &sub[j],
    ) by {
        assert(sub[i] == s[lo + i]);
        assert(sub[j] == s[lo + j]);
    }
}

/// A sequence drawn from the elements of a valid node sequence is
/// itself valid.
pub proof fn lemma_valid_nodes_contained<E: Edge>(s: Seq<E>, t: Seq<E>)
    requires
        valid_nodes(s),
        forall|i: int| 0 <= i < t.len() ==> s.contains(#[trigger] t[i]),
    ensures
        valid_nodes(t),
{
    assert forall|i: int| 0 <= i < t.len() implies (#[trigger] t[i]).wf() by {
        let k = choose|k: int| 0 <= k < s.len() && s[k] == t[i];
        assert(s[k].wf());
    }
    assert forall|i: int, j: int|
        0 <= i < t.len() && 0 <= j < t.len() implies (#[trigger] t[i]).compat(#[trigger] &t[j]) by {
        let k = choose|k: int| 0 <= k < s.len() && s[k] == t[i];
        let l = choose|l: int| 0 <= l < s.len() && s[l] == t[j];
        assert(s[k].compat(&s[l]));
    }
}

/// A sequence with the same multiset of nodes as a valid one is valid.
pub proof fn lemma_valid_nodes_mset<E: Edge>(s: Seq<E>, t: Seq<E>)
    requires
        valid_nodes(s),
        t.to_multiset() == s.to_multiset(),
    ensures
        valid_nodes(t),
{
    broadcast use vstd::seq_lib::group_to_multiset_ensures;

    assert forall|i: int| 0 <= i < t.len() implies (#[trigger] t[i]).wf() by {
        assert(t.contains(t[i]));
        assert(s.to_multiset().count(t[i]) > 0);
        assert(s.contains(t[i]));
        let k = choose|k: int| 0 <= k < s.len() && s[k] == t[i];
        assert(s[k].wf());
    }
    assert forall|i: int, j: int|
        0 <= i < t.len() && 0 <= j < t.len() implies (#[trigger] t[i]).compat(#[trigger] &t[j]) by {
        assert(t.contains(t[i]));
        assert(s.to_multiset().count(t[i]) > 0);
        assert(s.contains(t[i]));
        assert(t.contains(t[j]));
        assert(s.to_multiset().count(t[j]) > 0);
        assert(s.contains(t[j]));
        let k = choose|k: int| 0 <= k < s.len() && s[k] == t[i];
        let l = choose|l: int| 0 <= l < s.len() && s[l] == t[j];
        assert(s[k].compat(&s[l]));
    }
}

/// Reversing an inner segment keeps the multiset of nodes.
pub proof fn lemma_reversed_seg_mset<E: Edge>(s: Seq<E>, i: int, j: int)
    requires
        0 <= i < j < s.len(),
    ensures
        reversed_seg(s, i, j).to_multiset() == s.to_multiset(),
{
    let a = s.take(i + 1);
    let m = s.subrange(i + 1, j + 1);
    let b = s.skip(j + 1);
    assert(s =~= a + m + b);
    lemma_multiset_commutative(a + m, b);
    lemma_multiset_commutative(a, m);
    lemma_multiset_commutative(a + m.reverse(), b);
    lemma_multiset_commutative(a, m.reverse());
    m.lemma_reverse_to_multiset();
    assert(reversed_seg(s, i, j).to_multiset() =~= s.to_multiset());
}

/// How each position of a segment-reversed sequence reads from the
/// original: unchanged outside the segment, mirrored inside it.
pub proof fn lemma_reversed_seg_index<E>(s: Seq<E>, i: int, j: int)
    requires
        0 <= i < j < s.len(),
    ensures
        reversed_seg(s, i, j).len() == s.len(),
        forall|t: int| 0 <= t <= i ==> reversed_seg(s, i, j)[t] == s[t],
        forall|t: int| j < t < s.len() ==> reversed_seg(s, i, j)[t] == s[t],
        forall|t: int| i < t <= j ==> reversed_seg(s, i, j)[t] == s[i + 1 + j - t],
{
    let r = reversed_seg(s, i, j);
    let m = s.subrange(i + 1, j + 1);
    assert forall|t: int| i < t <= j implies r[t] == s[i + 1 + j - t] by {
        assert(r[t] == m.reverse()[t - (i + 1)]);
        assert(m.reverse()[t - (i + 1)] == m[m.len() - 1 - (t - (i + 1))]);
    }
}

/// Reversing the same inner segment twice restores the sequence.
pub proof fn lemma_reversed_seg_involution<E>(s: Seq<E>, i: int, j: int)
    requires
        0 <= i < j < s.len(),
    ensures
        reversed_seg(reversed_seg(s, i, j), i, j) == s,
{
    let r = reversed_seg(s, i, j);
    lemma_reversed_seg_index(s, i, j);
    lemma_reversed_seg_index(r, i, j);
    assert(reversed_seg(r, i, j) =~= s);
}

/// The cost of a tour after an inner segment reversal differs from the
/// original by exactly the two-opt delta of that reversal.
pub proof fn lemma_reversal_cost<E: Edge>(s: Seq<E>, i: int, j: int)
    requires
        valid_nodes(s),
        0 <= i < j < s.len(),
    ensures
        tour_cost(reversed_seg(s, i, j)) == tour_cost(s) + two_opt_delta(s, i, j),
{
    let n = s.len() as int;
    let a = s.take(i + 1);
    let m = s.subrange(i + 1, j + 1);
    let b = s.skip(j + 1);
    let rm = m.reverse();
    let r = reversed_seg(s, i, j);
    assert(s =~= a + m + b);
    assert(r == a + rm + b);

    lemma_valid_nodes_subrange(s, i + 1, j + 1);
    lemma_chain_cost_reverse(m);

    lemma_chain_cost_concat(a + m, b);
    lemma_chain_cost_concat(a, m);
    lemma_chain_cost_concat(a + rm, b);
    lemma_chain_cost_concat(a, rm);

    assert(a.last() == s[i]);
    assert(m.first() == s[i + 1]);
    assert(m.last() == s[j]);
    assert(rm.first() == m[m.len() - 1 - 0]);
    assert(rm.first() == s[j]);
    assert(rm.last() == m[m.len() - 1 - (m.len() - 1)]);
    assert(rm.last() == s[i + 1]);
    assert((a + m).last() == s[j]);
    assert((a + rm).last() == s[i + 1]);

    if b.len() > 0 {
        assert(b.first() == s[j + 1]);
        assert((j + 1) % n == j + 1) by {
            vstd::arithmetic::div_mod::lemma_small_mod((j + 1) as nat, n as nat);
        }
        assert(s.last() == s[n - 1]);
        assert(r.last() == b.last());
        assert(b.last() == s[n - 1]);
        assert(r.first() == a.first());
        assert(chain_cost(r) == chain_cost(a) + chain_cost(m) + s[i].wt(&s[j]) + s[i + 1].wt(
            &s[j + 1],
        ) + chain_cost(b));
        assert(chain_cost(s) == chain_cost(a) + chain_cost(m) + s[i].wt(&s[i + 1]) + s[j].wt(
            &s[j + 1],
        ) + chain_cost(b));
    } else {
        assert(j == n - 1);
        assert((j + 1) % n == 0) by {
            vstd::arithmetic::div_mod::lemma_mod_self_0(n);
        }
        assert(a + m + b =~= a + m);
        assert(a + rm + b =~= a + rm);
        assert(s.last() == s[j]);
        assert(r.last() == rm.last());
        assert(r.first() == a.first());
        assert(a.first() == s[0]);
        assert(chain_cost(r) == chain_cost(a) + chain_cost(rm) + s[i].wt(&s[j]));
        assert(chain_cost(s) == chain_cost(a) + chain_cost(m) + s[i].wt(&s[i + 1]));
    }
}

/// Extending a walked prefix by one node adds one edge to its chain
/// cost.
pub proof fn lemma_chain_cost_take_snoc<E: Edge>(s: Seq<E>, t: int)
    requires
        0 <= t < s.len(),
    ensures
        chain_cost(s.take(t + 1)) == chain_cost(s.take(t)) + if t >= 1 {
            s[t - 1].wt(&s[t])
        } else {
            0
        },
{
    assert(s.take(t + 1) =~= s.take(t) + seq![s[t]]);
    lemma_chain_cost_concat(s.take(t), seq![s[t]]);
    if t >= 1 {
        assert(s.take(t).last() == s[t - 1]);
    }
}

/// Position `m` holds the first minimum of `w`: every earlier value is
/// strictly larger, and no later value is smaller. This is the element
/// a scan with a strict `<` update settles on.
pub open spec fn is_first_min(w: Seq<int>, m: int) -> bool {
    &&& 0 <= m < w.len()
    &&& forall|t: int| 0 <= t < m ==> w[t] > w[m]
    &&& forall|t: int| m < t < w.len() ==> w[t] >= w[m]
}

/// Every non-empty sequence has a first minimum.
pub proof fn lemma_first_min_exists(w: Seq<int>)
    requires
        w.len() > 0,
    ensures
        exists|m: int| is_first_min(w, m),
    decreases w.len(),
{
    if w.len() == 1 {
        assert(is_first_min(w, 0));
    } else {
        let prefix = w.drop_last();
        lemma_first_min_exists(prefix);
        let m = choose|m: int| is_first_min(prefix, m);
        assert(forall|t: int| 0 <= t < prefix.len() ==> prefix[t] == w[t]);
        if w.last() < w[m] {
            assert(is_first_min(w, w.len() - 1));
        } else {
            assert(is_first_min(w, m));
        }
    }
}

/// The first minimum of a sequence is unique.
pub proof fn lemma_first_min_unique(w: Seq<int>, m1: int, m2: int)
    requires
        is_first_min(w, m1),
        is_first_min(w, m2),
    ensures
        m1 == m2,
{
    if m1 < m2 {
        assert(w[m1] > w[m2]);
        assert(w[m2] >= w[m1]);
    } else if m2 < m1 {
        assert(w[m2] > w[m1]);
        assert(w[m1] >= w[m2]);
    }
}

/// Chain costs of valid node sequences are non-negative and bounded by
/// the number of edges times the largest edge weight.
pub proof fn lemma_chain_cost_bounds<E: Edge>(s: Seq<E>)
    requires
        valid_nodes(s),
    ensures
        0 <= chain_cost(s),
        s.len() >= 1 ==> chain_cost(s) <= (s.len() - 1) * MAX_EDGE_WEIGHT,
    decreases s.len(),
{
    if s.len() >= 2 {
        let rest = s.drop_first();
        assert(valid_nodes(rest)) by {
            assert forall|i: int| 0 <= i < rest.len() implies (#[trigger] rest[i]).wf() by {
                assert(rest[i] == s[i + 1]);
            }
            assert forall|i: int, j: int|
                0 <= i < rest.len() && 0 <= j < rest.len() implies (#[trigger] rest[i]).compat(
                #[trigger] &rest[j],
            ) by {
                assert(rest[i] == s[i + 1]);
                assert(rest[j] == s[j + 1]);
            }
        }
        lemma_chain_cost_bounds(rest);
        let x = s[0];
        let y = s[1];
        x.edge_laws(&y);
    }
}

/// Tour costs of valid node sequences are non-negative and bounded by
/// the number of nodes times the largest edge weight.
pub proof fn lemma_tour_cost_bounds<E: Edge>(s: Seq<E>)
    requires
        valid_nodes(s),
        s.len() >= 1,
    ensures
        0 <= tour_cost(s) <= s.len() * MAX_EDGE_WEIGHT,
{
    lemma_chain_cost_bounds(s);
    let x = s.last();
    let y = s.first();
    x.edge_laws(&y);
}

} // verus!
