use vstd::prelude::*;

use crate::cost::chain_cost;
use crate::cost::is_first_min;
use crate::cost::lemma_chain_cost_concat;
use crate::cost::lemma_chain_cost_reverse;
use crate::cost::lemma_reversal_cost;
use crate::cost::lemma_valid_nodes_subrange;
use crate::cost::two_opt_delta;
use crate::cost::lemma_first_min_exists;
use crate::cost::lemma_first_min_unique;
use crate::cost::lemma_reversed_seg_index;
use crate::cost::lemma_reversed_seg_mset;
use crate::cost::lemma_valid_nodes_mset;
use crate::cost::reversed_seg;
use crate::cost::tour_cost;
use crate::cost::MAX_NODES;
use crate::edge::dup_nodes;
use crate::edge::valid_nodes;
use crate::edge::Edge;
use crate::edge::MAX_EDGE_WEIGHT;
use vstd::pervasive::VecAdditionalExecFns;

verus! {

/// One candidate reconnection of three tour edges, applied as one,
/// two or three segment reversals, together with the tour-cost change
/// it would produce.
pub enum ThreeOptCase {
    CategoryOne { i: usize, j: usize, delta: i64 },
    CategoryTwo { first_swap: (usize, usize), second_swap: (usize, usize), delta: i64 },
    CategoryThree {
        first_swap: (usize, usize),
        second_swap: (usize, usize),
        third_swap: (usize, usize),
        delta: i64,
    },
}

impl ThreeOptCase {
    /// The cost change this case claims.
    pub open spec fn spec_delta(&self) -> int {
        match self {
            ThreeOptCase::CategoryOne { delta, .. } => *delta as int,
            ThreeOptCase::CategoryTwo { delta, .. } => *delta as int,
            ThreeOptCase::CategoryThree { delta, .. } => *delta as int,
        }
    }

    /// The reversals this case is applied as, in order.
    pub open spec fn spec_plan(&self) -> Seq<(int, int)> {
        match self {
            ThreeOptCase::CategoryOne { i, j, .. } => seq![(*i as int, *j as int)],
            ThreeOptCase::CategoryTwo { first_swap, second_swap, .. } => seq![
                (first_swap.0 as int, first_swap.1 as int),
                (second_swap.0 as int, second_swap.1 as int),
            ],
            ThreeOptCase::CategoryThree { first_swap, second_swap, third_swap, .. } => seq![
                (first_swap.0 as int, first_swap.1 as int),
                (second_swap.0 as int, second_swap.1 as int),
                (third_swap.0 as int, third_swap.1 as int),
            ],
        }
    }

    /// The cost change this case claims.
    pub fn delta(&self) -> (d: i64)
        ensures
            d as int == self.spec_delta(),
    {
        match self {
            ThreeOptCase::CategoryOne { delta, .. } => *delta,
            ThreeOptCase::CategoryTwo { delta, .. } => *delta,
            ThreeOptCase::CategoryThree { delta, .. } => *delta,
        }
    }
}

/// The seven candidate deltas for the edge triple (a,b), (c,d), (e,f):
/// three plain 2-opt reconnections, and the four exchanges of the two
/// inner segments (each segment kept or reversed), every delta the
/// reconnected edge weights minus the removed ones.
pub open spec fn deltas7<E: Edge>(
    s: Seq<E>,
    a: int,
    b: int,
    c: int,
    d: int,
    e: int,
    f: int,
) -> Seq<int> {
    let wab = s[a].wt(&s[b]);
    let wcd = s[c].wt(&s[d]);
    let wef = s[e].wt(&s[f]);
    let common = -wab - wcd - wef;
    seq![
        -wcd - wef + s[c].wt(&s[e]) + s[d].wt(&s[f]),
        -wab - wef + s[a].wt(&s[e]) + s[b].wt(&s[f]),
        -wab - wcd + s[a].wt(&s[c]) + s[b].wt(&s[d]),
        common + s[a].wt(&s[d]) + s[e].wt(&s[b]) + s[f].wt(&s[c]),
        common + s[a].wt(&s[e]) + s[d].wt(&s[b]) + s[c].wt(&s[f]),
        common + s[a].wt(&s[c]) + s[b].wt(&s[e]) + s[d].wt(&s[f]),
        common + s[a].wt(&s[d]) + s[e].wt(&s[c]) + s[b].wt(&s[f]),
    ]
}

/// The reversal plan that realizes candidate `m` of the seven: the
/// sequence of segment reversals whose combined effect is exactly the
/// reconnection the candidate's delta scores (`x` is where the two
/// inner segments meet once exchanged).
pub open spec fn plan7(a: int, b: int, c: int, d: int, e: int, f: int, m: int) -> Seq<(int, int)> {
    let x = a + e - c;
    if m == 0 {
        seq![(c, e)]
    } else if m == 1 {
        seq![(a, e)]
    } else if m == 2 {
        seq![(a, c)]
    } else if m == 3 {
        seq![(a, e), (x, e), (a, x)]
    } else if m == 4 {
        seq![(a, e), (x, e)]
    } else if m == 5 {
        seq![(a, c), (c, e)]
    } else {
        seq![(a, e), (a, x)]
    }
}

/// The candidate a scan of the seven deltas with a strict `<` update
/// settles on: the first of lowest delta.
pub open spec fn best7(ds: Seq<int>) -> int {
    let m = choose|m: int| is_first_min(ds, m);
    if is_first_min(ds, m) {
        m
    } else {
        0
    }
}

/// The seven deltas of the triple (i, j, k) on tour `s`, with the
/// conventional edge endpoints a..f.
pub open spec fn triple_deltas<E: Edge>(s: Seq<E>, i: int, j: int, k: int) -> Seq<int> {
    deltas7(s, i, i + 1, j, j + 1, k, (k + 1) % (s.len() as int))
}

/// No candidate reconnection of the triple (i, j, k) lowers the tour
/// cost by its own scoring.
pub open spec fn triple_ok<E: Edge>(s: Seq<E>, i: int, j: int, k: int) -> bool {
    let ds = triple_deltas(s, i, j, k);
    &&& ds[0] >= 0
    &&& ds[1] >= 0
    &&& ds[2] >= 0
    &&& ds[3] >= 0
    &&& ds[4] >= 0
    &&& ds[5] >= 0
    &&& ds[6] >= 0
}

/// The tour is 3-opt locally optimal: over every edge triple the
/// solver enumerates, no candidate reconnection scores an improvement.
pub open spec fn three_opt_optimal<E: Edge>(s: Seq<E>) -> bool {
    forall|i: int, j: int, k: int|
        0 <= i && i + 1 < s.len() && i + 2 <= j && j + 2 <= k && k < s.len()
            ==> #[trigger] triple_ok(s, i, j, k)
}

/// Every reversal of `plan` stays inside a sequence of length `n` and
/// runs from a lower to a strictly higher position.
pub open spec fn plan_valid(plan: Seq<(int, int)>, n: int) -> bool {
    forall|p: int|
        0 <= p < plan.len() ==> 0 <= (#[trigger] plan[p]).0 && plan[p].0 < plan[p].1 && plan[p].1
            < n
}

/// The tour after the reversals of `plan`, applied in order.
pub open spec fn apply_plan<E: Edge>(s: Seq<E>, plan: Seq<(int, int)>) -> Seq<E>
    decreases plan.len(),
{
    if plan.len() == 0 {
        s
    } else {
        apply_plan(reversed_seg(s, plan[0].0, plan[0].1), plan.drop_first())
    }
}

/// Applying a reversal plan keeps the length, the multiset of nodes,
/// the first element, and validity of the tour.
pub proof fn lemma_apply_plan_props<E: Edge>(s: Seq<E>, plan: Seq<(int, int)>)
    requires
        valid_nodes(s),
        plan_valid(plan, s.len() as int),
    ensures
        apply_plan(s, plan).len() == s.len(),
        apply_plan(s, plan).to_multiset() == s.to_multiset(),
        s.len() > 0 ==> apply_plan(s, plan)[0] == s[0],
        valid_nodes(apply_plan(s, plan)),
    decreases plan.len(),
{
    if plan.len() > 0 {
        let x = plan[0].0;
        let y = plan[0].1;
        let r = reversed_seg(s, x, y);
        lemma_reversed_seg_index(s, x, y);
        lemma_reversed_seg_mset(s, x, y);
        lemma_valid_nodes_mset(s, r);
        assert(plan_valid(plan.drop_first(), r.len() as int)) by {
            assert(forall|p: int|
                0 <= p < plan.drop_first().len() ==> plan.drop_first()[p] == plan[p + 1]);
        }
        lemma_apply_plan_props(r, plan.drop_first());
    }
}

/// Cost of a tour assembled from the prefix through position `i`, a
/// replacement middle, and the suffix after position `k`.
proof fn lemma_abm_cost<E: Edge>(s: Seq<E>, i: int, k: int, mid: Seq<E>)
    requires
        0 <= i < k < s.len(),
        mid.len() >= 1,
    ensures
        tour_cost(s.take(i + 1) + mid + s.skip(k + 1)) == chain_cost(s.take(i + 1)) + chain_cost(
            mid,
        ) + chain_cost(s.skip(k + 1)) + s[i].wt(&mid.first()) + if k + 1 < s.len() {
            mid.last().wt(&s[k + 1]) + s.last().wt(&s[0])
        } else {
            mid.last().wt(&s[0])
        },
{
    let a = s.take(i + 1);
    let b = s.skip(k + 1);
    let t = a + mid + b;
    lemma_chain_cost_concat(a + mid, b);
    lemma_chain_cost_concat(a, mid);
    assert(a.last() == s[i]);
    assert((a + mid).last() == mid.last());
    assert(t.first() == s[0]);
    if b.len() > 0 {
        assert(b.first() == s[k + 1]);
        assert(b.last() == s[s.len() - 1]);
        assert(t.last() == b.last());
        assert(s.last() == s[s.len() - 1]);
    } else {
        assert(t =~= a + mid);
        assert(t.last() == mid.last());
    }
}

/// The original tour's cost, split at the three edges of the triple.
proof fn lemma_s_decomp_cost<E: Edge>(s: Seq<E>, i: int, j: int, k: int)
    requires
        0 <= i,
        i + 2 <= j,
        j + 2 <= k,
        k < s.len(),
    ensures
        tour_cost(s) == chain_cost(s.take(i + 1)) + chain_cost(s.subrange(i + 1, j + 1))
            + chain_cost(s.subrange(j + 1, k + 1)) + chain_cost(s.skip(k + 1)) + s[i].wt(
            &s[i + 1],
        ) + s[j].wt(&s[j + 1]) + if k + 1 < s.len() {
            s[k].wt(&s[k + 1]) + s.last().wt(&s[0])
        } else {
            s[k].wt(&s[0])
        },
{
    let a = s.take(i + 1);
    let s1 = s.subrange(i + 1, j + 1);
    let s2 = s.subrange(j + 1, k + 1);
    let b = s.skip(k + 1);
    assert(s =~= a + s1 + s2 + b);
    lemma_chain_cost_concat(a + s1 + s2, b);
    lemma_chain_cost_concat(a + s1, s2);
    lemma_chain_cost_concat(a, s1);
    assert(a.last() == s[i]);
    assert(s1.first() == s[i + 1]);
    assert(s1.last() == s[j]);
    assert((a + s1).last() == s[j]);
    assert(s2.first() == s[j + 1]);
    assert(s2.last() == s[k]);
    assert((a + s1 + s2).last() == s[k]);
    assert(s.first() == s[0]);
    if b.len() > 0 {
        assert(b.first() == s[k + 1]);
        assert(s.last() == s[s.len() - 1]);
    } else {
        assert(s.last() == s[k]);
    }
}

/// The middle the exchange plans produce, read off position by
/// position: the two inner segments swapped, each kept or reversed.
proof fn lemma_exchange_product<E: Edge>(s: Seq<E>, i: int, j: int, k: int)
    requires
        0 <= i,
        i + 2 <= j,
        j + 2 <= k,
        k < s.len(),
    ensures
        apply_plan(s, seq![(i, k), (i + k - j, k)]) == s.take(i + 1) + s.subrange(
            j + 1,
            k + 1,
        ).reverse() + s.subrange(i + 1, j + 1) + s.skip(k + 1),
        apply_plan(s, seq![(i, k), (i + k - j, k), (i, i + k - j)]) == s.take(i + 1) + s.subrange(
            j + 1,
            k + 1,
        ) + s.subrange(i + 1, j + 1) + s.skip(k + 1),
        apply_plan(s, seq![(i, k), (i, i + k - j)]) == s.take(i + 1) + s.subrange(j + 1, k + 1)
            + s.subrange(i + 1, j + 1).reverse() + s.skip(k + 1),
        apply_plan(s, seq![(i, j), (j, k)]) == s.take(i + 1) + s.subrange(i + 1, j + 1).reverse()
            + s.subrange(j + 1, k + 1).reverse() + s.skip(k + 1),
{
    let n = s.len() as int;
    let x = i + k - j;
    let a = s.take(i + 1);
    let s1 = s.subrange(i + 1, j + 1);
    let s2 = s.subrange(j + 1, k + 1);
    let b = s.skip(k + 1);

    let s1r = reversed_seg(s, i, k);
    lemma_reversed_seg_index(s, i, k);

    // plan for candidate 5: A rev(S2) S1 B
    let p5 = seq![(i, k), (x, k)];
    let u5 = reversed_seg(s1r, x, k);
    lemma_reversed_seg_index(s1r, x, k);
    assert(apply_plan(s, p5) == apply_plan(s1r, p5.drop_first()));
    assert(p5.drop_first()[0] == (x, k));
    assert(apply_plan(s1r, p5.drop_first()) == apply_plan(u5, p5.drop_first().drop_first()));
    assert(p5.drop_first().drop_first().len() == 0);
    assert(apply_plan(u5, p5.drop_first().drop_first()) == u5);
    let mid5 = s2.reverse() + s1;
    assert(u5 =~= a + mid5 + b) by {
        assert forall|t: int| 0 <= t < n implies u5[t] == (a + mid5 + b)[t] by {
            if t <= i {
                assert(u5[t] == s1r[t]);
                assert(s1r[t] == s[t]);
                assert((a + mid5 + b)[t] == a[t]);
            } else if t <= x {
                assert(u5[t] == s1r[t]);
                assert(s1r[t] == s[i + 1 + k - t]);
                assert((a + mid5 + b)[t] == mid5[t - (i + 1)]);
                assert(mid5[t - (i + 1)] == s2.reverse()[t - (i + 1)]);
                assert(s2.reverse()[t - (i + 1)] == s2[s2.len() - 1 - (t - (i + 1))]);
                assert(s2[s2.len() - 1 - (t - (i + 1))] == s[i + 1 + k - t]);
            } else if t <= k {
                assert(u5[t] == s1r[x + 1 + k - t]);
                assert(i < x + 1 + k - t <= k);
                assert(s1r[x + 1 + k - t] == s[i + 1 + k - (x + 1 + k - t)]);
                assert((a + mid5 + b)[t] == mid5[t - (i + 1)]);
                assert(mid5[t - (i + 1)] == s1[t - (i + 1) - s2.len()]);
                assert(s1[t - x - 1] == s[i + 1 + t - x - 1]);
            } else {
                assert(u5[t] == s1r[t]);
                assert(s1r[t] == s[t]);
                assert((a + mid5 + b)[t] == b[t - (k + 1)]);
            }
        }
    }

    // plan for candidate 4: A S2 S1 B (one more reversal on the front block)
    let p4 = seq![(i, k), (x, k), (i, x)];
    let u4 = reversed_seg(u5, i, x);
    lemma_reversed_seg_index(u5, i, x);
    assert(apply_plan(s, p4) == apply_plan(s1r, p4.drop_first()));
    assert(p4.drop_first()[0] == (x, k));
    assert(apply_plan(s1r, p4.drop_first()) == apply_plan(u5, p4.drop_first().drop_first()));
    assert(p4.drop_first().drop_first()[0] == (i, x));
    assert(apply_plan(u5, p4.drop_first().drop_first()) == apply_plan(
        u4,
        p4.drop_first().drop_first().drop_first(),
    ));
    assert(p4.drop_first().drop_first().drop_first().len() == 0);
    assert(apply_plan(u4, p4.drop_first().drop_first().drop_first()) == u4);
    let mid4 = s2 + s1;
    assert(u4 =~= a + mid4 + b) by {
        assert forall|t: int| 0 <= t < n implies u4[t] == (a + mid4 + b)[t] by {
            if t <= i {
                assert(u4[t] == u5[t]);
                assert((a + mid4 + b)[t] == a[t]);
                assert((a + mid5 + b)[t] == a[t]);
            } else if t <= x {
                assert(u4[t] == u5[i + 1 + x - t]);
                assert(i < i + 1 + x - t <= x);
                assert(u5[i + 1 + x - t] == (a + mid5 + b)[i + 1 + x - t]);
                assert((a + mid5 + b)[i + 1 + x - t] == mid5[x - t]);
                assert(mid5[x - t] == s2.reverse()[x - t]);
                assert(s2.reverse()[x - t] == s2[s2.len() - 1 - (x - t)]);
                assert((a + mid4 + b)[t] == mid4[t - (i + 1)]);
                assert(mid4[t - (i + 1)] == s2[t - (i + 1)]);
                assert(s2.len() - 1 - (x - t) == t - (i + 1));
            } else if t <= k {
                assert(u4[t] == u5[t]);
                assert(u5[t] == (a + mid5 + b)[t]);
                assert((a + mid5 + b)[t] == mid5[t - (i + 1)]);
                assert(mid5[t - (i + 1)] == s1[t - x - 1]);
                assert((a + mid4 + b)[t] == mid4[t - (i + 1)]);
                assert(mid4[t - (i + 1)] == s1[t - (i + 1) - s2.len()]);
            } else {
                assert(u4[t] == u5[t]);
                assert(u5[t] == (a + mid5 + b)[t]);
                assert((a + mid5 + b)[t] == b[t - (k + 1)]);
                assert((a + mid4 + b)[t] == b[t - (k + 1)]);
            }
        }
    }

    // plan for candidate 7: A S2 rev(S1) B
    let p7 = seq![(i, k), (i, x)];
    let u7 = reversed_seg(s1r, i, x);
    lemma_reversed_seg_index(s1r, i, x);
    assert(apply_plan(s, p7) == apply_plan(s1r, p7.drop_first()));
    assert(p7.drop_first()[0] == (i, x));
    assert(apply_plan(s1r, p7.drop_first()) == apply_plan(u7, p7.drop_first().drop_first()));
    assert(p7.drop_first().drop_first().len() == 0);
    assert(apply_plan(u7, p7.drop_first().drop_first()) == u7);
    let mid7 = s2 + s1.reverse();
    assert(u7 =~= a + mid7 + b) by {
        assert forall|t: int| 0 <= t < n implies u7[t] == (a + mid7 + b)[t] by {
            if t <= i {
                assert(u7[t] == s1r[t]);
                assert(s1r[t] == s[t]);
                assert((a + mid7 + b)[t] == a[t]);
            } else if t <= x {
                assert(u7[t] == s1r[i + 1 + x - t]);
                assert(i < i + 1 + x - t <= k);
                assert(s1r[i + 1 + x - t] == s[i + 1 + k - (i + 1 + x - t)]);
                assert((a + mid7 + b)[t] == mid7[t - (i + 1)]);
                assert(mid7[t - (i + 1)] == s2[t - (i + 1)]);
                assert(s2[t - (i + 1)] == s[j + 1 + t - (i + 1)]);
            } else if t <= k {
                assert(u7[t] == s1r[t]);
                assert(s1r[t] == s[i + 1 + k - t]);
                assert((a + mid7 + b)[t] == mid7[t - (i + 1)]);
                assert(mid7[t - (i + 1)] == s1.reverse()[t - (i + 1) - s2.len()]);
                assert(s1.reverse()[t - x - 1] == s1[s1.len() - 1 - (t - x - 1)]);
                assert(s1[s1.len() - 1 - (t - x - 1)] == s[i + 1 + s1.len() - 1 - (t - x - 1)]);
            } else {
                assert(u7[t] == s1r[t]);
                assert(s1r[t] == s[t]);
                assert((a + mid7 + b)[t] == b[t - (k + 1)]);
            }
        }
    }

    // plan for candidate 6: A rev(S1) rev(S2) B
    let p6 = seq![(i, j), (j, k)];
    let v1 = reversed_seg(s, i, j);
    lemma_reversed_seg_index(s, i, j);
    let u6 = reversed_seg(v1, j, k);
    lemma_reversed_seg_index(v1, j, k);
    assert(apply_plan(s, p6) == apply_plan(v1, p6.drop_first()));
    assert(p6.drop_first()[0] == (j, k));
    assert(apply_plan(v1, p6.drop_first()) == apply_plan(u6, p6.drop_first().drop_first()));
    assert(p6.drop_first().drop_first().len() == 0);
    assert(apply_plan(u6, p6.drop_first().drop_first()) == u6);
    let mid6 = s1.reverse() + s2.reverse();
    assert(u6 =~= a + mid6 + b) by {
        assert forall|t: int| 0 <= t < n implies u6[t] == (a + mid6 + b)[t] by {
            if t <= i {
                assert(u6[t] == v1[t]);
                assert(v1[t] == s[t]);
                assert((a + mid6 + b)[t] == a[t]);
            } else if t <= j {
                assert(u6[t] == v1[t]);
                assert(v1[t] == s[i + 1 + j - t]);
                assert((a + mid6 + b)[t] == mid6[t - (i + 1)]);
                assert(mid6[t - (i + 1)] == s1.reverse()[t - (i + 1)]);
                assert(s1.reverse()[t - (i + 1)] == s1[s1.len() - 1 - (t - (i + 1))]);
                assert(s1[s1.len() - 1 - (t - (i + 1))] == s[i + 1 + s1.len() - 1 - (t - (i
                    + 1))]);
            } else if t <= k {
                assert(u6[t] == v1[j + 1 + k - t]);
                assert(j < j + 1 + k - t <= k);
                assert(v1[j + 1 + k - t] == s[j + 1 + k - t]);
                assert((a + mid6 + b)[t] == mid6[t - (i + 1)]);
                assert(mid6[t - (i + 1)] == s2.reverse()[t - (i + 1) - s1.len()]);
                assert(s2.reverse()[t - j - 1] == s2[s2.len() - 1 - (t - j - 1)]);
                assert(s2[s2.len() - 1 - (t - j - 1)] == s[j + 1 + s2.len() - 1 - (t - j - 1)]);
            } else {
                assert(u6[t] == v1[t]);
                assert(v1[t] == s[t]);
                assert((a + mid6 + b)[t] == b[t - (k + 1)]);
            }
        }
    }
}

/// Applying the reversal plan of candidate `m` changes the tour cost
/// by exactly the candidate's delta: the scoring table and the applied
/// reconnections agree, for every triple, the closing-edge one
/// included.
pub proof fn lemma_case_cost<E: Edge>(s: Seq<E>, i: int, j: int, k: int, m: int)
    requires
        valid_nodes(s),
        0 <= i,
        i + 2 <= j,
        j + 2 <= k,
        k < s.len(),
        0 <= m < 7,
    ensures
        tour_cost(apply_plan(s, plan7(i, i + 1, j, j + 1, k, (k + 1) % (s.len() as int), m)))
            == tour_cost(s) + triple_deltas(s, i, j, k)[m],
{
    let n = s.len() as int;
    let f = (k + 1) % n;
    let x = i + k - j;
    let plan = plan7(i, i + 1, j, j + 1, k, f, m);
    if k + 1 < n {
        assert(f == k + 1) by {
            vstd::arithmetic::div_mod::lemma_small_mod((k + 1) as nat, n as nat);
        }
    } else {
        assert(f == 0) by {
            vstd::arithmetic::div_mod::lemma_mod_self_0(n);
        }
    }
    assert((j + 1) % n == j + 1) by {
        vstd::arithmetic::div_mod::lemma_small_mod((j + 1) as nat, n as nat);
    }
    if m <= 2 {
        let (p, q) = if m == 0 {
            (j, k)
        } else if m == 1 {
            (i, k)
        } else {
            (i, j)
        };
        assert(plan == seq![(p, q)]);
        assert(plan[0] == (p, q));
        assert(plan.drop_first().len() == 0);
        assert(apply_plan(s, plan) == apply_plan(reversed_seg(s, p, q), plan.drop_first()));
        assert(apply_plan(reversed_seg(s, p, q), plan.drop_first()) == reversed_seg(s, p, q));
        lemma_reversal_cost(s, p, q);
        assert(two_opt_delta(s, p, q) == triple_deltas(s, i, j, k)[m]);
        assert(tour_cost(apply_plan(s, plan)) == tour_cost(s) + triple_deltas(s, i, j, k)[m]);
    } else {
        let a = s.take(i + 1);
        let s1 = s.subrange(i + 1, j + 1);
        let s2 = s.subrange(j + 1, k + 1);
        lemma_exchange_product(s, i, j, k);
        lemma_s_decomp_cost(s, i, j, k);
        lemma_valid_nodes_subrange(s, i + 1, j + 1);
        lemma_valid_nodes_subrange(s, j + 1, k + 1);
        lemma_chain_cost_reverse(s1);
        lemma_chain_cost_reverse(s2);
        assert(s1.first() == s[i + 1]);
        assert(s1.last() == s[j]);
        assert(s2.first() == s[j + 1]);
        assert(s2.last() == s[k]);
        assert(s1.reverse().first() == s1[s1.len() - 1]);
        assert(s1.reverse().last() == s1[0]);
        assert(s2.reverse().first() == s2[s2.len() - 1]);
        assert(s2.reverse().last() == s2[0]);
        if m == 3 {
            let mid = s2 + s1;
            assert(plan == seq![(i, k), (x, k), (i, x)]);
            lemma_chain_cost_concat(s2, s1);
            assert(mid.first() == s2.first());
            assert(mid.last() == s1.last());
            lemma_abm_cost(s, i, k, mid);
            if k + 1 < n {
                let y = s[j];
                let z = s[k + 1];
                y.edge_laws(&z);
            } else {
                let y = s[j];
                let z = s[0];
                y.edge_laws(&z);
            }
            assert(apply_plan(s, plan) == a + mid + s.skip(k + 1));
            assert(tour_cost(apply_plan(s, plan)) == tour_cost(s) + triple_deltas(s, i, j, k)[3]);
        } else if m == 4 {
            let mid = s2.reverse() + s1;
            assert(plan == seq![(i, k), (x, k)]);
            lemma_chain_cost_concat(s2.reverse(), s1);
            assert(mid.first() == s2.reverse().first());
            assert(mid.last() == s1.last());
            lemma_abm_cost(s, i, k, mid);
            assert(apply_plan(s, plan) == a + mid + s.skip(k + 1));
            assert(tour_cost(apply_plan(s, plan)) == tour_cost(s) + triple_deltas(s, i, j, k)[4]);
        } else if m == 5 {
            let mid = s1.reverse() + s2.reverse();
            assert(plan == seq![(i, j), (j, k)]);
            lemma_chain_cost_concat(s1.reverse(), s2.reverse());
            assert(mid.first() == s1.reverse().first());
            assert(mid.last() == s2.reverse().last());
            lemma_abm_cost(s, i, k, mid);
            assert(apply_plan(s, plan) == a + mid + s.skip(k + 1));
            assert(tour_cost(apply_plan(s, plan)) == tour_cost(s) + triple_deltas(s, i, j, k)[5]);
        } else {
            let mid = s2 + s1.reverse();
            assert(plan == seq![(i, k), (i, x)]);
            lemma_chain_cost_concat(s2, s1.reverse());
            assert(mid.first() == s2.first());
            assert(mid.last() == s1.reverse().last());
            lemma_abm_cost(s, i, k, mid);
            assert(apply_plan(s, plan) == a + mid + s.skip(k + 1));
            assert(tour_cost(apply_plan(s, plan)) == tour_cost(s) + triple_deltas(s, i, j, k)[6]);
        }
    }
}

/// A 3-opt locally optimal tour resists every enumerated
/// reconnection: because each candidate's delta is exactly the cost
/// change of its reversal plan, a tour in which no candidate scores
/// below zero is one that no plan makes cheaper.
pub proof fn lemma_optimal_tour_resists_reconnection<E: Edge>(
    s: Seq<E>,
    i: int,
    j: int,
    k: int,
    m: int,
)
    requires
        valid_nodes(s),
        three_opt_optimal(s),
        0 <= i,
        i + 2 <= j,
        j + 2 <= k,
        k < s.len(),
        0 <= m < 7,
    ensures
        tour_cost(apply_plan(s, plan7(i, i + 1, j, j + 1, k, (k + 1) % (s.len() as int), m)))
            >= tour_cost(s),
{
    lemma_case_cost(s, i, j, k, m);
    assert(triple_ok(s, i, j, k));
    let ds = triple_deltas(s, i, j, k);
    assert(ds[m] >= 0);
}

/// Declares rand's `StdRng` so the stochastic solver can hold one;
/// the value is opaque here.
#[verifier::external_type_specification]
#[verifier::external_body]
pub struct ExStdRng(rand::rngs::StdRng);

/// Relies on rand's `SeedableRng::seed_from_u64` for `StdRng`: builds a
/// generator deterministically from the seed. Nothing is assumed about
/// the stream it produces.
#[verifier::external_body]
fn rng_from_seed(seed: u64) -> rand::rngs::StdRng {
    <rand::rngs::StdRng as rand::SeedableRng>::seed_from_u64(seed)
}

/// Relies on rand's `Rng::next_u64` for `StdRng`: hands out the next
/// value of the generator's stream. Nothing is assumed about its value.
#[verifier::external_body]
fn rng_next(rng: &mut rand::rngs::StdRng) -> u64 {
    rand::Rng::next_u64(rng)
}

/// The natural logarithm of two in Q32 fixed point.
pub const LN2_Q32: u64 = 2977044471;

/// The exact value the fixed-point exponential below computes: the
/// argument is reduced by whole multiples of ln 2 (each worth one
/// halving at the end), and a cubic polynomial approximates the
/// remainder's exponential; every intermediate is the integer the code
/// forms.
pub open spec fn exp_neg_threshold(x: u64) -> u64 {
    let k = (x as int) / (LN2_Q32 as int);
    if k >= 33 {
        0u64
    } else {
        let r = (x as int) % (LN2_Q32 as int);
        let sq = (r * r) as u128;
        let t2 = ((sq >> 33) as u64) as int;
        let div6 = ((r * r * r) / 6) as u128;
        let t3 = ((div6 >> 64) as u64) as int;
        let pos = 0x1_0000_0000 + t2;
        let neg = r + t3;
        let p = if pos >= neg {
            pos - neg
        } else {
            0int
        };
        let capped = if p > 0x1_0000_0000 {
            0x1_0000_0000int
        } else {
            p
        };
        (capped as u64) >> (k as u64)
    }
}

/// A Q32 fixed-point approximation of e^(-x/2^32): range reduction by
/// ln 2, then a cubic polynomial on the remainder. The result is
/// exactly [`exp_neg_threshold`] of the argument; in particular it is
/// 2^32 at zero and at most 2^32 everywhere.
fn exp_neg_q32(x: u64) -> (p: u64)
    ensures
        p == exp_neg_threshold(x),
        p <= 0x1_0000_0000,
        x == 0 ==> p == 0x1_0000_0000,
{
    let k = x / LN2_Q32;
    if k >= 33 {
        return 0;
    }
    let r = x % LN2_Q32;
    let r128 = r as u128;
    proof {
        assert(r128 * r128 < 0x1_0000_0000_0000_0000) by (nonlinear_arith)
            requires
                r128 < 0x1_0000_0000,
        ;
    }
    let sq = r128 * r128;
    proof {
        assert(sq * r128 < 0x1_0000_0000_0000_0000_0000_0000) by (nonlinear_arith)
            requires
                sq < 0x1_0000_0000_0000_0000,
                r128 < 0x1_0000_0000,
        ;
    }
    let cube = sq * r128;
    let div6 = cube / 6;
    let sh = div6 >> 64;
    proof {
        assert(sh < 0x1_0000_0000) by (bit_vector)
            requires
                sh == div6 >> 64,
                div6 < 0x1_0000_0000_0000_0000_0000_0000,
        ;
        assert(sq >> 33 < 0x8000_0000) by (bit_vector)
            requires
                sq < 0x1_0000_0000_0000_0000,
        ;
        if x == 0 {
            assert(r128 == 0);
            assert(sq == 0) by (nonlinear_arith)
                requires
                    sq == r128 * r128,
                    r128 == 0,
            ;
            assert(cube == 0) by (nonlinear_arith)
                requires
                    cube == sq * r128,
                    sq == 0,
            ;
            assert(sh == 0) by (bit_vector)
                requires
                    sh == div6 >> 64,
                    div6 == 0,
            ;
            assert(sq >> 33 == 0) by (bit_vector)
                requires
                    sq == 0,
            ;
        }
    }
    let t3 = sh as u64;
    let t2 = (sq >> 33) as u64;
    let pos = 0x1_0000_0000u64 + t2;
    let neg = r + t3;
    let p = if pos >= neg {
        pos - neg
    } else {
        0
    };
    let capped = if p > 0x1_0000_0000u64 {
        0x1_0000_0000u64
    } else {
        p
    };
    let result = capped >> k;
    proof {
        assert(result <= capped) by (bit_vector)
            requires
                result == capped >> k,
                k < 64,
        ;
        if x == 0 {
            assert(result == capped) by (bit_vector)
                requires
                    result == capped >> k,
                    k == 0,
            ;
        }
    }
    result
}

/// The Q32 acceptance threshold for an uphill move: the fixed-point
/// exponential of delta (metres, scaled from millidegrees of
/// temperature), capped where the exponential has decayed to nothing.
pub open spec fn accept_threshold(delta: u64, temp_milli: u64) -> u64 {
    let prod = (delta * 1000) as u128;
    let x128 = prod << 32;
    let x = (x128 as int) / (temp_milli as int);
    let xq = if x >= 0x2E_0000_0000 {
        0x2E_0000_0000u64
    } else {
        x as u64
    };
    exp_neg_threshold(xq)
}

/// Whether an uphill move that worsens the tour by `delta` is accepted
/// at temperature `temp_milli` (thousandths of a degree): the uniform
/// 32-bit draw is compared against the Q32 approximation of
/// e^(-delta / temperature), so the decision is a fixed function of
/// delta, temperature and draw. A move that worsens nothing is always
/// accepted, as e^0 = 1.
fn accept_uphill(delta: u64, temp_milli: u64, draw: u64) -> (acc: bool)
    requires
        temp_milli >= 1,
        delta <= 0x40_0000_0000,
    ensures
        acc == ((draw & 0xFFFF_FFFF) <= accept_threshold(delta, temp_milli)),
        delta == 0 ==> acc,
{
    let prod = (delta as u128) * 1000;
    let x128 = prod << 32;
    let x = x128 / (temp_milli as u128);
    proof {
        if delta == 0 {
            assert(x128 == 0) by (bit_vector)
                requires
                    x128 == prod << 32,
                    prod == 0,
            ;
        }
    }
    let xq: u64 = if x >= 0x2E_0000_0000u128 {
        0x2E_0000_0000u64
    } else {
        x as u64
    };
    let threshold = exp_neg_q32(xq);
    let draw32 = draw & 0xFFFF_FFFF;
    proof {
        assert(draw & 0xFFFF_FFFF <= 0xFFFF_FFFFu64) by (bit_vector);
    }
    draw32 <= threshold
}

/// The dedicated 3-opt solver: the candidate node list and the working
/// tour it refines.
pub struct ThreeOpt<E> {
    nodes: Vec<E>,
    path: Vec<E>,
}

impl<E> ThreeOpt<E> where E: Edge {
    /// The candidate node list.
    pub closed spec fn spec_nodes(&self) -> Seq<E> {
        self.nodes@
    }

    /// The working tour.
    pub closed spec fn spec_path(&self) -> Seq<E> {
        self.path@
    }

    /// A new solver over `nodes`, starting from the tour `path`.
    pub fn new(nodes: Vec<E>, path: Vec<E>) -> (solver: Self)
        ensures
            solver.spec_nodes() == nodes@,
            solver.spec_path() == path@,
    {
        ThreeOpt { nodes, path }
    }

    /// Read access to the working tour.
    pub fn path(&self) -> (path: &Vec<E>)
        ensures
            path@ == self.spec_path(),
    {
        &self.path
    }

    /// Total cost of the working tour: the weights of consecutive
    /// positions plus the closing edge from the last back to the
    /// first.
    pub fn calculate_path_cost(&self) -> (cost: u64)
        requires
            valid_nodes(self.spec_path()),
            1 <= self.spec_path().len() <= MAX_NODES + 1,
        ensures
            cost as int == tour_cost(self.spec_path()),
    {
        let ghost s = self.path@;
        let n = self.path.len();
        let mut cost = self.dist(n - 1, 0);
        proof {
            assert(s[n - 1] == s.last());
            assert(s[0] == s.first());
        }
        let mut idx: usize = 0;
        while idx < n - 1
            invariant
                self.spec_path() == s,
                valid_nodes(s),
                n == s.len(),
                1 <= n <= MAX_NODES + 1,
                idx <= n - 1,
                cost as int == s.last().wt(&s.first()) + crate::cost::chain_cost(
                    s.take(idx + 1),
                ),
                cost as int <= (idx + 1) * (MAX_EDGE_WEIGHT as int),
            decreases n - 1 - idx,
        {
            let d = self.dist(idx, idx + 1);
            proof {
                crate::cost::lemma_chain_cost_take_snoc(s, idx + 1);
                assert(s.take(idx as int + 2)[idx as int] == s[idx as int]);
                assert((idx + 2) * (MAX_EDGE_WEIGHT as int) == (idx + 1) * (MAX_EDGE_WEIGHT as int)
                    + MAX_EDGE_WEIGHT);
            }
            cost = cost + d;
            idx += 1;
        }
        proof {
            assert(s.take(n as int) =~= s);
        }
        cost
    }

    /// Weight of the edge between tour positions `index_1` and
    /// `index_2`.
    fn dist(&self, index_1: usize, index_2: usize) -> (w: u64)
        requires
            valid_nodes(self.spec_path()),
            index_1 < self.spec_path().len(),
            index_2 < self.spec_path().len(),
        ensures
            w as int == self.spec_path()[index_1 as int].wt(&self.spec_path()[index_2 as int]),
            w <= MAX_EDGE_WEIGHT,
    {
        proof {
            let x = self.path@[index_1 as int];
            let y = self.path@[index_2 as int];
            x.edge_laws(&y);
        }
        self.path[index_1].weight(&self.path[index_2])
    }

    /// Replaces the tour edges leaving positions `i` and `j` by the
    /// crossing pair, by reversing in place the positions strictly
    /// after `i` through `j`.
    pub fn swap_edges(&mut self, i: usize, j: usize)
        requires
            i < j,
            j < old(self).spec_path().len(),
        ensures
            final(self).spec_nodes() == old(self).spec_nodes(),
            final(self).spec_path() == reversed_seg(old(self).spec_path(), i as int, j as int),
    {
        let ghost orig = self.path@;
        let mut x = i + 1;
        let mut y = j;
        while x < y
            invariant
                i + 1 <= x,
                x <= y + 1,
                y <= j,
                x + y == i + 1 + j,
                j < orig.len(),
                self.path@.len() == orig.len(),
                self.nodes@ == old(self).nodes@,
                forall|t: int|
                    0 <= t < orig.len() ==> #[trigger] self.path@[t] == if (i + 1 <= t < x) || (y
                        < t <= j) {
                        orig[i + 1 + j - t]
                    } else {
                        orig[t]
                    },
            decreases y + 1 - x,
        {
            let tmp = self.path[x].duplicate();
            let other = self.path[y].duplicate();
            self.path.set(x, other);
            self.path.set(y, tmp);
            x += 1;
            y -= 1;
        }
        proof {
            lemma_reversed_seg_index(orig, i as int, j as int);
            assert(self.path@ =~= reversed_seg(orig, i as int, j as int));
        }
    }

    /// Applies the reversal plan of `case` to the working tour, one
    /// `swap_edges` per reversal, in order.
    fn swap_edges_by_case(&mut self, case: &ThreeOptCase)
        requires
            plan_valid(case.spec_plan(), old(self).spec_path().len() as int),
        ensures
            final(self).spec_nodes() == old(self).spec_nodes(),
            final(self).spec_path() == apply_plan(old(self).spec_path(), case.spec_plan()),
    {
        let ghost plan = case.spec_plan();
        let ghost s0 = self.path@;
        match case {
            ThreeOptCase::CategoryOne { i, j, .. } => {
                proof {
                    assert(plan[0] == (*i as int, *j as int));
                }
                self.swap_edges(*i, *j);
                proof {
                    let s1 = reversed_seg(s0, plan[0].0, plan[0].1);
                    assert(self.path@ == s1);
                    assert(apply_plan(s0, plan) == apply_plan(s1, plan.drop_first()));
                    assert(apply_plan(s1, plan.drop_first()) == s1);
                }
            },
            ThreeOptCase::CategoryTwo { first_swap, second_swap, .. } => {
                proof {
                    assert(plan[0] == (first_swap.0 as int, first_swap.1 as int));
                    assert(plan[1] == (second_swap.0 as int, second_swap.1 as int));
                }
                self.swap_edges(first_swap.0, first_swap.1);
                let ghost s1 = self.path@;
                self.swap_edges(second_swap.0, second_swap.1);
                proof {
                    let p1 = plan.drop_first();
                    assert(p1[0] == plan[1]);
                    assert(s1 == reversed_seg(s0, plan[0].0, plan[0].1));
                    let s2 = reversed_seg(s1, p1[0].0, p1[0].1);
                    assert(self.path@ == s2);
                    assert(apply_plan(s0, plan) == apply_plan(s1, p1));
                    assert(apply_plan(s1, p1) == apply_plan(s2, p1.drop_first()));
                    assert(apply_plan(s2, p1.drop_first()) == s2);
                }
            },
            ThreeOptCase::CategoryThree { first_swap, second_swap, third_swap, .. } => {
                proof {
                    assert(plan[0] == (first_swap.0 as int, first_swap.1 as int));
                    assert(plan[1] == (second_swap.0 as int, second_swap.1 as int));
                    assert(plan[2] == (third_swap.0 as int, third_swap.1 as int));
                }
                self.swap_edges(first_swap.0, first_swap.1);
                let ghost s1 = self.path@;
                self.swap_edges(second_swap.0, second_swap.1);
                let ghost s2 = self.path@;
                self.swap_edges(third_swap.0, third_swap.1);
                proof {
                    let p1 = plan.drop_first();
                    let p2 = p1.drop_first();
                    assert(p1[0] == plan[1]);
                    assert(p2[0] == plan[2]);
                    assert(s1 == reversed_seg(s0, plan[0].0, plan[0].1));
                    assert(s2 == reversed_seg(s1, p1[0].0, p1[0].1));
                    let s3 = reversed_seg(s2, p2[0].0, p2[0].1);
                    assert(self.path@ == s3);
                    assert(apply_plan(s0, plan) == apply_plan(s1, p1));
                    assert(apply_plan(s1, p1) == apply_plan(s2, p2));
                    assert(apply_plan(s2, p2) == apply_plan(s3, p2.drop_first()));
                    assert(apply_plan(s3, p2.drop_first()) == s3);
                }
            },
        }
    }

    /// Scores the seven reconnections of the edge triple and returns
    /// the first-scanned one of lowest delta.
    fn get_best_case(&self, a: usize, b: usize, c: usize, d: usize, e: usize, f: usize) -> (r:
        ThreeOptCase)
        requires
            valid_nodes(self.spec_path()),
            a < b < c,
            c < d < e,
            e < self.spec_path().len(),
            f < self.spec_path().len(),
        ensures
            ({
                let ds = deltas7(
                    self.spec_path(),
                    a as int,
                    b as int,
                    c as int,
                    d as int,
                    e as int,
                    f as int,
                );
                &&& is_first_min(ds, best7(ds))
                &&& r.spec_delta() == ds[best7(ds)]
                &&& -3 * (MAX_EDGE_WEIGHT as int) <= r.spec_delta() <= 3 * (MAX_EDGE_WEIGHT
                    as int)
                &&& r.spec_plan() == plan7(
                    a as int,
                    b as int,
                    c as int,
                    d as int,
                    e as int,
                    f as int,
                    best7(ds),
                )
                &&& plan_valid(r.spec_plan(), self.spec_path().len() as int)
            }),
    {
        let ghost ds = deltas7(
            self.spec_path(),
            a as int,
            b as int,
            c as int,
            d as int,
            e as int,
            f as int,
        );
        let wab = self.dist(a, b) as i64;
        let wcd = self.dist(c, d) as i64;
        let wef = self.dist(e, f) as i64;
        let common = -wab - wcd - wef;

        let d1 = -wcd - wef + (self.dist(c, e) as i64) + (self.dist(d, f) as i64);
        let d2 = -wab - wef + (self.dist(a, e) as i64) + (self.dist(b, f) as i64);
        let d3 = -wab - wcd + (self.dist(a, c) as i64) + (self.dist(b, d) as i64);
        let d4 = common + (self.dist(a, d) as i64) + (self.dist(e, b) as i64) + (self.dist(f, c)
            as i64);
        let d5 = common + (self.dist(a, e) as i64) + (self.dist(d, b) as i64) + (self.dist(c, f)
            as i64);
        let d6 = common + (self.dist(a, c) as i64) + (self.dist(b, e) as i64) + (self.dist(d, f)
            as i64);
        let d7 = common + (self.dist(a, d) as i64) + (self.dist(e, c) as i64) + (self.dist(b, f)
            as i64);

        proof {
            assert(ds[0] == d1 as int);
            assert(ds[1] == d2 as int);
            assert(ds[2] == d3 as int);
            assert(ds[3] == d4 as int);
            assert(ds[4] == d5 as int);
            assert(ds[5] == d6 as int);
            assert(ds[6] == d7 as int);
        }

        let mut best_m: usize = 0;
        let mut best_d: i64 = d1;
        if d2 < best_d {
            best_m = 1;
            best_d = d2;
        }
        if d3 < best_d {
            best_m = 2;
            best_d = d3;
        }
        if d4 < best_d {
            best_m = 3;
            best_d = d4;
        }
        if d5 < best_d {
            best_m = 4;
            best_d = d5;
        }
        if d6 < best_d {
            best_m = 5;
            best_d = d6;
        }
        if d7 < best_d {
            best_m = 6;
            best_d = d7;
        }
        proof {
            assert(is_first_min(ds, best_m as int));
            lemma_first_min_exists(ds);
            let mc = choose|m: int| is_first_min(ds, m);
            lemma_first_min_unique(ds, mc, best_m as int);
            assert(best7(ds) == best_m as int);
        }
        let x = a + (e - c);
        let r = if best_m == 0 {
            ThreeOptCase::CategoryOne { i: c, j: e, delta: best_d }
        } else if best_m == 1 {
            ThreeOptCase::CategoryOne { i: a, j: e, delta: best_d }
        } else if best_m == 2 {
            ThreeOptCase::CategoryOne { i: a, j: c, delta: best_d }
        } else if best_m == 3 {
            ThreeOptCase::CategoryThree {
                first_swap: (a, e),
                second_swap: (x, e),
                third_swap: (a, x),
                delta: best_d,
            }
        } else if best_m == 4 {
            ThreeOptCase::CategoryTwo { first_swap: (a, e), second_swap: (x, e), delta: best_d }
        } else if best_m == 5 {
            ThreeOptCase::CategoryTwo { first_swap: (a, c), second_swap: (c, e), delta: best_d }
        } else {
            ThreeOptCase::CategoryTwo { first_swap: (a, e), second_swap: (a, x), delta: best_d }
        };
        proof {
            assert(r.spec_plan() == plan7(
                a as int,
                b as int,
                c as int,
                d as int,
                e as int,
                f as int,
                best_m as int,
            ));
        }
        r
    }

    /// Full 3-opt local search. Enumerates every index triple of the
    /// tour, scores all seven reconnections, and as soon as the best
    /// one improves the cost, applies it — the reversal plans realize
    /// exactly the reconnections the deltas score, so the applied move
    /// lowers the tour cost by exactly its delta — and restarts the
    /// whole scan. Terminates when one complete scan finds no case
    /// below threshold: the result is a reordering of the same tour,
    /// never costlier than the input, with the same fixed first node,
    /// in which no enumerated reconnection scores an improvement.
    /// Tours too short for any triple come back unchanged.
    pub fn solve(&mut self) -> (path: Vec<E>)
        requires
            valid_nodes(old(self).spec_path()),
            1 <= old(self).spec_path().len() <= MAX_NODES + 1,
        ensures
            final(self).spec_nodes() == old(self).spec_nodes(),
            path@ == final(self).spec_path(),
            final(self).spec_path().to_multiset() == old(self).spec_path().to_multiset(),
            final(self).spec_path().len() == old(self).spec_path().len(),
            final(self).spec_path()[0] == old(self).spec_path()[0],
            valid_nodes(final(self).spec_path()),
            tour_cost(final(self).spec_path()) <= tour_cost(old(self).spec_path()),
            old(self).spec_path().len() < 5 ==> final(self).spec_path() == old(self).spec_path(),
            three_opt_optimal(final(self).spec_path()),
    {
        let ghost orig = self.path@;
        proof {
            crate::cost::lemma_tour_cost_bounds(orig);
        }
        let n = self.path.len();
        let mut found_improvement = true;
        while found_improvement
            invariant
                self.nodes@ == old(self).nodes@,
                n == self.path@.len(),
                1 <= n <= MAX_NODES + 1,
                valid_nodes(self.path@),
                valid_nodes(orig),
                self.path@.to_multiset() == orig.to_multiset(),
                self.path@[0] == orig[0],
                tour_cost(self.path@) <= tour_cost(orig),
                tour_cost(self.path@) >= 0,
                n < 5 ==> self.path@ == orig,
                !found_improvement ==> three_opt_optimal(self.path@),
            decreases tour_cost(self.path@) + if found_improvement {
                1int
            } else {
                0int
            },
        {
            found_improvement = false;
            let ghost cost_at_pass = tour_cost(self.path@);
            let mut i: usize = 0;
            while i + 1 < n && !found_improvement
                invariant
                    self.nodes@ == old(self).nodes@,
                    n == self.path@.len(),
                    1 <= n <= MAX_NODES + 1,
                    i <= n,
                    valid_nodes(self.path@),
                    self.path@.to_multiset() == orig.to_multiset(),
                    self.path@[0] == orig[0],
                    tour_cost(self.path@) <= tour_cost(orig),
                    tour_cost(self.path@) >= 0,
                    n < 5 ==> self.path@ == orig,
                    found_improvement ==> tour_cost(self.path@) <= cost_at_pass - 1,
                    !found_improvement ==> tour_cost(self.path@) == cost_at_pass,
                    !found_improvement ==> forall|i2: int, j2: int, k2: int|
                        0 <= i2 < i && i2 + 2 <= j2 && j2 + 2 <= k2 && k2 < n
                            ==> #[trigger] triple_ok(self.path@, i2, j2, k2),
                decreases n - i,
            {
                let a = i;
                let b = i + 1;
                let mut j = i + 2;
                while j < n && !found_improvement
                    invariant
                        self.nodes@ == old(self).nodes@,
                        n == self.path@.len(),
                        1 <= n <= MAX_NODES + 1,
                        i + 1 < n,
                        a == i,
                        b == i + 1,
                        i + 2 <= j,
                        valid_nodes(self.path@),
                        self.path@.to_multiset() == orig.to_multiset(),
                        self.path@[0] == orig[0],
                        tour_cost(self.path@) <= tour_cost(orig),
                        tour_cost(self.path@) >= 0,
                        n < 5 ==> self.path@ == orig,
                        found_improvement ==> tour_cost(self.path@) <= cost_at_pass - 1,
                        !found_improvement ==> tour_cost(self.path@) == cost_at_pass,
                        !found_improvement ==> forall|i2: int, j2: int, k2: int|
                            0 <= i2 < i && i2 + 2 <= j2 && j2 + 2 <= k2 && k2 < n
                                ==> #[trigger] triple_ok(self.path@, i2, j2, k2),
                        !found_improvement ==> forall|j2: int, k2: int|
                            i + 2 <= j2 < j && j2 + 2 <= k2 && k2 < n ==> #[trigger] triple_ok(
                                self.path@,
                                i as int,
                                j2,
                                k2,
                            ),
                    decreases n - j,
                {
                    let c = j;
                    let d = (j + 1) % n;
                    let mut k = j + 2;
                    while k < n && !found_improvement
                        invariant
                            self.nodes@ == old(self).nodes@,
                            n == self.path@.len(),
                            1 <= n <= MAX_NODES + 1,
                            i + 1 < n,
                            a == i,
                            b == i + 1,
                            i + 2 <= j < n,
                            c == j,
                            d == (j + 1) % (n as int),
                            j + 2 <= k,
                            valid_nodes(self.path@),
                            self.path@.to_multiset() == orig.to_multiset(),
                            self.path@[0] == orig[0],
                            tour_cost(self.path@) <= tour_cost(orig),
                            tour_cost(self.path@) >= 0,
                            n < 5 ==> self.path@ == orig,
                            found_improvement ==> tour_cost(self.path@) <= cost_at_pass - 1,
                            !found_improvement ==> tour_cost(self.path@) == cost_at_pass,
                            !found_improvement ==> forall|i2: int, j2: int, k2: int|
                                0 <= i2 < i && i2 + 2 <= j2 && j2 + 2 <= k2 && k2 < n
                                    ==> #[trigger] triple_ok(self.path@, i2, j2, k2),
                            !found_improvement ==> forall|j2: int, k2: int|
                                i + 2 <= j2 < j && j2 + 2 <= k2 && k2 < n ==> #[trigger] triple_ok(
                                    self.path@,
                                    i as int,
                                    j2,
                                    k2,
                                ),
                            !found_improvement ==> forall|k2: int|
                                j + 2 <= k2 < k ==> #[trigger] triple_ok(
                                    self.path@,
                                    i as int,
                                    j as int,
                                    k2,
                                ),
                        decreases n - k,
                    {
                        let e = k;
                        let f = (k + 1) % n;
                        proof {
                            assert(d == j + 1) by {
                                vstd::arithmetic::div_mod::lemma_small_mod(
                                    (j + 1) as nat,
                                    n as nat,
                                );
                            }
                        }
                        let best_case = self.get_best_case(a, b, c, d, e, f);
                        let dl = best_case.delta();
                        let ghost ds = triple_deltas(self.path@, i as int, j as int, k as int);
                        proof {
                            assert(ds == deltas7(
                                self.path@,
                                a as int,
                                b as int,
                                c as int,
                                d as int,
                                e as int,
                                f as int,
                            ));
                        }
                        if dl < 0 {
                            let ghost before = self.path@;
                            proof {
                                lemma_apply_plan_props(before, best_case.spec_plan());
                                lemma_case_cost(before, i as int, j as int, k as int, best7(ds));
                            }
                            self.swap_edges_by_case(&best_case);
                            found_improvement = true;
                            proof {
                                crate::cost::lemma_tour_cost_bounds(self.path@);
                            }
                        } else {
                            proof {
                                let bm = best7(ds);
                                assert(ds[bm] >= 0);
                                assert(triple_ok(self.path@, i as int, j as int, k as int));
                            }
                        }
                        k += 1;
                    }
                    j += 1;
                }
                i += 1;
            }
            proof {
                if !found_improvement {
                    assert(i + 1 >= n);
                    assert forall|i2: int, j2: int, k2: int|
                        0 <= i2 && i2 + 1 < n && i2 + 2 <= j2 && j2 + 2 <= k2 && k2
                            < n implies #[trigger] triple_ok(self.path@, i2, j2, k2) by {
                        assert(i2 < i);
                    }
                }
            }
        }
        dup_nodes(&self.path)
    }

    /// Three-opt-based simulated annealing. Enumerates triples exactly
    /// as the deterministic search does, but keeps a temperature,
    /// cooled by a factor of 0.9 once per triple examined: a case that
    /// claims an improvement is always applied, and any other case is
    /// applied with probability about e^(-delta/temperature) against a
    /// fresh uniform draw, permitting uphill moves. Any application
    /// restarts the scan. The walk stops when the temperature,
    /// truncated to whole degrees, reaches zero, whether or not a
    /// local optimum was reached. The random source is seeded from
    /// `seed`, so a run can be reproduced.
    pub fn solve_sm(&mut self, seed: u64) -> (path: Vec<E>)
        requires
            valid_nodes(old(self).spec_path()),
            1 <= old(self).spec_path().len() <= MAX_NODES + 1,
        ensures
            final(self).spec_nodes() == old(self).spec_nodes(),
            path@ == final(self).spec_path(),
            final(self).spec_path().to_multiset() == old(self).spec_path().to_multiset(),
            final(self).spec_path().len() == old(self).spec_path().len(),
            final(self).spec_path()[0] == old(self).spec_path()[0],
            valid_nodes(final(self).spec_path()),
            old(self).spec_path().len() < 5 ==> final(self).spec_path() == old(self).spec_path(),
    {
        let ghost orig = self.path@;
        let n = self.path.len();
        if n < 5 {
            return dup_nodes(&self.path);
        }
        let mut rng = rng_from_seed(seed);
        let mut temperature: u64 = 100_000_000;
        while temperature >= 1000
            invariant
                self.nodes@ == old(self).nodes@,
                n == self.path@.len(),
                5 <= n <= MAX_NODES + 1,
                valid_nodes(self.path@),
                self.path@.to_multiset() == orig.to_multiset(),
                self.path@[0] == orig[0],
                temperature <= 100_000_000,
            decreases temperature,
        {
            let ghost temp0 = temperature;
            let mut accepted = false;
            let mut i: usize = 0;
            while i + 1 < n && !accepted
                invariant
                    self.nodes@ == old(self).nodes@,
                    n == self.path@.len(),
                    5 <= n <= MAX_NODES + 1,
                    i <= n,
                    valid_nodes(self.path@),
                    self.path@.to_multiset() == orig.to_multiset(),
                    self.path@[0] == orig[0],
                    temperature <= temp0 <= 100_000_000,
                    1000 <= temp0,
                    (i > 0 || accepted) ==> temperature < temp0,
                decreases n - i,
            {
                let a = i;
                let b = i + 1;
                let mut j = i + 2;
                while j < n && !accepted
                    invariant
                        self.nodes@ == old(self).nodes@,
                        n == self.path@.len(),
                        5 <= n <= MAX_NODES + 1,
                        i + 1 < n,
                        a == i,
                        b == i + 1,
                        i + 2 <= j,
                        valid_nodes(self.path@),
                        self.path@.to_multiset() == orig.to_multiset(),
                        self.path@[0] == orig[0],
                        temperature <= temp0 <= 100_000_000,
                        1000 <= temp0,
                        (i > 0 || j > i + 2 || accepted) ==> temperature < temp0,
                    decreases n - j,
                {
                    let c = j;
                    let d = (j + 1) % n;
                    let mut k = j + 2;
                    while k < n && !accepted
                        invariant
                            self.nodes@ == old(self).nodes@,
                            n == self.path@.len(),
                            5 <= n <= MAX_NODES + 1,
                            i + 1 < n,
                            a == i,
                            b == i + 1,
                            i + 2 <= j < n,
                            c == j,
                            d == (j + 1) % (n as int),
                            j + 2 <= k,
                            valid_nodes(self.path@),
                            self.path@.to_multiset() == orig.to_multiset(),
                            self.path@[0] == orig[0],
                            temperature <= temp0 <= 100_000_000,
                            1000 <= temp0,
                            (i > 0 || j > i + 2 || k > j + 2 || accepted) ==> temperature
                                < temp0,
                        decreases n - k,
                    {
                        let e = k;
                        let f = (k + 1) % n;
                        proof {
                            assert(d == j + 1) by {
                                vstd::arithmetic::div_mod::lemma_small_mod(
                                    (j + 1) as nat,
                                    n as nat,
                                );
                            }
                        }
                        let best_case = self.get_best_case(a, b, c, d, e, f);
                        let current_temperature = temperature;
                        temperature = temperature * 9 / 10;
                        let draw = rng_next(&mut rng);
                        let dl = best_case.delta();
                        proof {
                            assert(temperature < temp0);
                        }
                        if dl < 0 {
                            let ghost before = self.path@;
                            proof {
                                lemma_apply_plan_props(before, best_case.spec_plan());
                            }
                            self.swap_edges_by_case(&best_case);
                            accepted = true;
                        } else {
                            if current_temperature >= 1 && accept_uphill(
                                dl as u64,
                                current_temperature,
                                draw,
                            ) {
                                let ghost before = self.path@;
                                proof {
                                    lemma_apply_plan_props(before, best_case.spec_plan());
                                }
                                self.swap_edges_by_case(&best_case);
                                accepted = true;
                            }
                        }
                        k += 1;
                    }
                    j += 1;
                }
                i += 1;
            }
        }
        dup_nodes(&self.path)
    }
}

} // verus!
