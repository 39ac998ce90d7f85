use vstd::prelude::*;

use crate::cost::chain_cost;
use crate::cost::is_first_min;
use crate::cost::lemma_chain_cost_take_snoc;
use crate::cost::lemma_first_min_exists;
use crate::cost::lemma_first_min_unique;
use crate::cost::lemma_reversal_cost;
use crate::cost::lemma_reversed_seg_index;
use crate::cost::lemma_reversed_seg_mset;
use crate::cost::lemma_tour_cost_bounds;
use crate::cost::lemma_valid_nodes_contained;
use crate::cost::lemma_valid_nodes_mset;
use crate::cost::reversed_seg;
use crate::cost::tour_cost;
use crate::cost::two_opt_delta;
use crate::cost::MAX_NODES;
use crate::edge::dup_nodes;
use crate::edge::valid_nodes;
use crate::edge::Edge;
use crate::edge::MAX_EDGE_WEIGHT;
use crate::tsp_ext::three_opt::three_opt_optimal;
use crate::tsp_ext::three_opt::ThreeOpt;
use vstd::multiset::Multiset;
use vstd::pervasive::VecAdditionalExecFns;
use vstd::seq_lib::lemma_multiset_commutative;

verus! {

/// The weights from `cur` to each node of `pool`.
pub open spec fn weights_from<E: Edge>(cur: E, pool: Seq<E>) -> Seq<int> {
    Seq::new(pool.len(), |t: int| cur.wt(&pool[t]))
}

/// The pool index a nearest-neighbor step picks from `cur`: the first
/// index of least weight (ties broken by scan order).
pub open spec fn nn_pick<E: Edge>(cur: E, pool: Seq<E>) -> int {
    let m = choose|m: int| is_first_min(weights_from(cur, pool), m);
    if is_first_min(weights_from(cur, pool), m) {
        m
    } else {
        0
    }
}

/// The visiting order nearest-neighbor construction produces, starting
/// beside `cur` with the unvisited pool `pool`: repeatedly the first
/// nearest pool node, which then becomes the new reference point.
pub open spec fn nn_order<E: Edge>(cur: E, pool: Seq<E>) -> Seq<E>
    decreases pool.len(),
{
    if pool.len() == 0 {
        Seq::empty()
    } else {
        let m = nn_pick(cur, pool);
        seq![pool[m]] + nn_order(pool[m], pool.remove(m))
    }
}

/// The whole nearest-neighbor tour over `nodes`: the first node, then
/// the greedy visiting order over the rest, then the first node again
/// to close the loop.
pub open spec fn nn_path<E: Edge>(nodes: Seq<E>) -> Seq<E>
    recommends
        nodes.len() >= 1,
{
    seq![nodes[0]] + nn_order(nodes[0], nodes.drop_first()) + seq![nodes[0]]
}

/// The nearest-neighbor visiting order is a permutation of the pool.
pub proof fn lemma_nn_order_mset<E: Edge>(cur: E, pool: Seq<E>)
    ensures
        nn_order(cur, pool).len() == pool.len(),
        nn_order(cur, pool).to_multiset() == pool.to_multiset(),
    decreases pool.len(),
{
    broadcast use vstd::seq_lib::group_to_multiset_ensures;
    broadcast use vstd::multiset::group_multiset_axioms;

    if pool.len() > 0 {
        let m = nn_pick(cur, pool);
        assert(0 <= m < pool.len());
        let rest = pool.remove(m);
        lemma_nn_order_mset(pool[m], rest);
        lemma_multiset_commutative(seq![pool[m]], nn_order(pool[m], rest));
        assert(seq![pool[m]].to_multiset() =~= Multiset::<E>::empty().insert(pool[m]));
        assert(rest.to_multiset() == pool.to_multiset().remove(pool[m]));
        assert(pool.to_multiset().count(pool[m]) > 0) by {
            assert(pool.contains(pool[m]));
        }
        assert(nn_order(cur, pool).to_multiset() =~= pool.to_multiset());
    }
}

/// The nearest-neighbor tour has the shape the data model promises: a
/// closed tour over the whole node set, one position longer than the
/// node list, starting and ending at the first node, valid wherever
/// the node set is.
pub proof fn lemma_nn_path_props<E: Edge>(nodes: Seq<E>)
    requires
        nodes.len() >= 1,
    ensures
        nn_path(nodes).len() == nodes.len() + 1,
        nn_path(nodes).first() == nodes[0],
        nn_path(nodes).last() == nodes[0],
        valid_nodes(nodes) ==> valid_nodes(nn_path(nodes)),
{
    broadcast use vstd::seq_lib::group_to_multiset_ensures;

    let order = nn_order(nodes[0], nodes.drop_first());
    lemma_nn_order_mset(nodes[0], nodes.drop_first());
    let p = nn_path(nodes);
    assert(p.len() == nodes.len() + 1);
    assert(p.first() == nodes[0]);
    assert(p.last() == nodes[0]);
    if valid_nodes(nodes) {
        assert forall|t: int| 0 <= t < p.len() implies nodes.contains(#[trigger] p[t]) by {
            if t == 0 || t == p.len() - 1 {
                assert(p[t] == nodes[0]);
            } else {
                assert(p[t] == order[t - 1]);
                assert(order.contains(order[t - 1]));
                assert(order.to_multiset().count(order[t - 1]) > 0);
                assert(nodes.drop_first().contains(order[t - 1]));
                let k = choose|k: int|
                    0 <= k < nodes.drop_first().len() && nodes.drop_first()[k] == order[t - 1];
                assert(nodes[k + 1] == order[t - 1]);
            }
        }
        lemma_valid_nodes_contained(nodes, p);
    }
}

/// The tour container: the full candidate node list, and the working
/// tour over those nodes that the construction and refinement
/// operations build and improve in place.
pub struct TSP<E: Edge> {
    nodes: Vec<E>,
    path: Vec<E>,
}

impl<E: Edge> TSP<E> {
    /// The candidate node list.
    pub closed spec fn spec_nodes(&self) -> Seq<E> {
        self.nodes@
    }

    /// The working tour.
    pub closed spec fn spec_path(&self) -> Seq<E> {
        self.path@
    }

    /// A new container over `nodes`, with an empty working tour.
    pub fn new(nodes: Vec<E>) -> (tsp: Self)
        ensures
            tsp.spec_nodes() == nodes@,
            tsp.spec_path() == Seq::<E>::empty(),
    {
        let tsp = TSP { nodes, path: Vec::new() };
        proof {
            assert(tsp.path@ =~= Seq::<E>::empty());
        }
        tsp
    }

    /// A new container whose working tour starts out as the node list
    /// itself, in input order.
    pub fn new_and_initialize_path(nodes: Vec<E>) -> (tsp: Self)
        ensures
            tsp.spec_nodes() == nodes@,
            tsp.spec_path() == nodes@,
    {
        let path = dup_nodes(&nodes);
        TSP { nodes, path }
    }

    /// Read access to the working tour.
    pub fn path(&self) -> (path: &Vec<E>)
        ensures
            path@ == self.spec_path(),
    {
        &self.path
    }

    /// Weight of the edge between tour positions `index_1` and
    /// `index_2`.
    fn dist(&self, index_1: usize, index_2: usize) -> (w: u64)
        requires
            valid_nodes(self.spec_path()),
            index_1 < self.spec_path().len(),
            index_2 < self.spec_path().len(),
        ensures
            w as int == self.spec_path()[index_1 as int].wt(&self.spec_path()[index_2 as int]),
            w <= MAX_EDGE_WEIGHT,
    {
        proof {
            let x = self.path@[index_1 as int];
            let y = self.path@[index_2 as int];
            x.edge_laws(&y);
        }
        self.path[index_1].weight(&self.path[index_2])
    }

    /// Replaces the tour edges leaving positions `i` and `j` by the
    /// crossing pair, by reversing in place the positions strictly
    /// after `i` through `j`.
    pub fn swap_edges(&mut self, i: usize, j: usize)
        requires
            i < j,
            j < old(self).spec_path().len(),
        ensures
            final(self).spec_nodes() == old(self).spec_nodes(),
            final(self).spec_path() == reversed_seg(old(self).spec_path(), i as int, j as int),
    {
        let ghost orig = self.path@;
        let mut x = i + 1;
        let mut y = j;
        while x < y
            invariant
                i + 1 <= x,
                x <= y + 1,
                y <= j,
                x + y == i + 1 + j,
                j < orig.len(),
                self.path@.len() == orig.len(),
                self.nodes@ == old(self).nodes@,
                forall|t: int|
                    0 <= t < orig.len() ==> #[trigger] self.path@[t] == if (i + 1 <= t < x) || (y
                        < t <= j) {
                        orig[i + 1 + j - t]
                    } else {
                        orig[t]
                    },
            decreases y + 1 - x,
        {
            let tmp = self.path[x].duplicate();
            let other = self.path[y].duplicate();
            self.path.set(x, other);
            self.path.set(y, tmp);
            x += 1;
            y -= 1;
        }
        proof {
            lemma_reversed_seg_index(orig, i as int, j as int);
            assert(self.path@ =~= reversed_seg(orig, i as int, j as int));
        }
    }

    /// Nearest-neighbor tour construction. The first candidate node is
    /// the fixed start; among the not-yet-visited candidates the one of
    /// least weight to the last placed node is appended next, ties
    /// broken by scan order; a copy of the start closes the loop. The
    /// working tour is replaced by the result.
    pub fn nn(&mut self) -> (path: Vec<E>)
        requires
            valid_nodes(old(self).spec_nodes()),
            1 <= old(self).spec_nodes().len() <= MAX_NODES,
        ensures
            final(self).spec_nodes() == old(self).spec_nodes(),
            final(self).spec_path() == nn_path(old(self).spec_nodes()),
            path@ == final(self).spec_path(),
    {
        broadcast use vstd::seq_lib::group_to_multiset_ensures;
        broadcast use vstd::multiset::group_multiset_axioms;

        let ghost nodes0 = self.nodes@;
        let mut path: Vec<E> = Vec::new();
        let mut nodes_to_visit = dup_nodes(&self.nodes);
        let initial = nodes_to_visit.remove(0);
        let mut current_node = initial.duplicate();
        path.push(initial);
        proof {
            assert(path@ + nodes_to_visit@ =~= nodes0);
            assert(nodes_to_visit@ =~= nodes0.drop_first());
            assert(path@ + nn_order(current_node, nodes_to_visit@) == seq![nodes0[0]] + nn_order(
                nodes0[0],
                nodes0.drop_first(),
            ));
        }
        while nodes_to_visit.len() > 0
            invariant
                valid_nodes(nodes0),
                nodes0.len() <= MAX_NODES,
                self.nodes@ == nodes0,
                path@.len() >= 1,
                path@.len() + nodes_to_visit@.len() == nodes0.len(),
                current_node == path@.last(),
                (path@ + nodes_to_visit@).to_multiset() == nodes0.to_multiset(),
                path@ + nn_order(current_node, nodes_to_visit@) == seq![nodes0[0]] + nn_order(
                    nodes0[0],
                    nodes0.drop_first(),
                ),
            decreases nodes_to_visit@.len(),
        {
            let ghost pool0 = nodes_to_visit@;
            let ghost cur0 = current_node;
            let ghost wseq = weights_from(cur0, pool0);
            let ghost side = pool0.push(cur0);
            proof {
                lemma_valid_nodes_mset(nodes0, path@ + pool0);
                assert forall|k: int| 0 <= k < side.len() implies (path@ + pool0).contains(
                    #[trigger] side[k],
                ) by {
                    if k < pool0.len() {
                        assert((path@ + pool0)[path@.len() + k] == side[k]);
                    } else {
                        assert((path@ + pool0)[path@.len() - 1] == side[k]);
                    }
                }
                lemma_valid_nodes_contained(path@ + pool0, side);
                assert(side[pool0.len() as int] == cur0);
                assert(side[0] == pool0[0]);
            }
            let mut current_shortest = current_node.weight(&nodes_to_visit[0]);
            let mut current_index: usize = 0;
            proof {
                assert(wseq[0] == current_shortest as int);
            }
            let mut t: usize = 1;
            while t < nodes_to_visit.len()
                invariant
                    nodes_to_visit@ == pool0,
                    current_node == cur0,
                    side == pool0.push(cur0),
                    valid_nodes(side),
                    wseq == weights_from(cur0, pool0),
                    current_index < t,
                    t <= pool0.len(),
                    current_shortest as int == wseq[current_index as int],
                    forall|u: int| 0 <= u < current_index ==> wseq[u] > wseq[current_index as int],
                    forall|u: int|
                        current_index < u < t ==> wseq[u] >= wseq[current_index as int],
                decreases pool0.len() - t,
            {
                proof {
                    assert(side[pool0.len() as int] == cur0);
                    assert(side[t as int] == pool0[t as int]);
                }
                let w = current_node.weight(&nodes_to_visit[t]);
                proof {
                    assert(wseq[t as int] == w as int);
                }
                if w < current_shortest {
                    current_shortest = w;
                    current_index = t;
                }
                t += 1;
            }
            proof {
                assert(is_first_min(wseq, current_index as int));
                lemma_first_min_exists(wseq);
                let mc = choose|m: int| is_first_min(wseq, m);
                lemma_first_min_unique(wseq, mc, current_index as int);
                assert(nn_pick(cur0, pool0) == current_index as int);
            }
            let ghost path_before = path@;
            let chosen = nodes_to_visit.remove(current_index);
            current_node = chosen.duplicate();
            path.push(chosen);
            proof {
                broadcast use vstd::seq_lib::group_to_multiset_ensures;
                broadcast use vstd::multiset::group_multiset_axioms;

                let ci = current_index as int;
                assert(nn_order(cur0, pool0) == seq![pool0[ci]] + nn_order(
                    pool0[ci],
                    pool0.remove(ci),
                ));
                assert(path@ + nn_order(current_node, nodes_to_visit@) =~= path_before + nn_order(
                    cur0,
                    pool0,
                ));
                assert(chosen == pool0[ci]);
                assert(pool0.contains(pool0[ci]));
                assert(pool0.to_multiset().count(chosen) > 0);
                assert(path@ == path_before.push(chosen));
                assert(path@.to_multiset() =~= path_before.to_multiset().insert(chosen));
                assert(nodes_to_visit@.to_multiset() == pool0.to_multiset().remove(chosen));
                lemma_multiset_commutative(path_before, pool0);
                lemma_multiset_commutative(path@, nodes_to_visit@);
                assert((path@ + nodes_to_visit@).to_multiset() =~= (path_before
                    + pool0).to_multiset());
            }
        }
        proof {
            assert(nn_order(current_node, nodes_to_visit@) =~= Seq::<E>::empty());
            assert(path@ =~= path@ + Seq::<E>::empty());
            assert(path@ == seq![nodes0[0]] + nn_order(nodes0[0], nodes0.drop_first()));
            assert(path@[0] == nodes0[0]);
        }
        let closing = path[0].duplicate();
        path.push(closing);
        proof {
            assert(path@ =~= nn_path(nodes0));
        }
        self.path = dup_nodes(&path);
        path
    }

    /// Classical 2-opt local search on the closed working tour.
    /// Repeats full passes over every pair of non-adjacent tour edges,
    /// eagerly reversing the enclosed segment whenever the
    /// reconnection is cheaper, until a full pass finds no improving
    /// move. The result is a reordering of the same tour whose cost is
    /// no higher, and in which no 2-opt move improves anything.
    pub fn two_opt(&mut self) -> (path: Vec<E>)
        requires
            valid_nodes(old(self).spec_path()),
            1 <= old(self).spec_path().len() <= MAX_NODES + 1,
        ensures
            final(self).spec_nodes() == old(self).spec_nodes(),
            path@ == final(self).spec_path(),
            final(self).spec_path().to_multiset() == old(self).spec_path().to_multiset(),
            final(self).spec_path().len() == old(self).spec_path().len(),
            final(self).spec_path()[0] == old(self).spec_path()[0],
            valid_nodes(final(self).spec_path()),
            tour_cost(final(self).spec_path()) <= tour_cost(old(self).spec_path()),
            forall|i2: int, j2: int|
                0 <= i2 < final(self).spec_path().len() - 1 && i2 + 2 <= j2 < final(self).spec_path().len()
                    ==> two_opt_delta(final(self).spec_path(), i2, j2) >= 0,
    {
        let ghost orig = self.path@;
        proof {
            lemma_tour_cost_bounds(orig);
        }
        let n = self.path.len();
        let mut found_improvement = true;
        while found_improvement
            invariant
                self.nodes@ == old(self).nodes@,
                n == self.path@.len(),
                n >= 1,
                valid_nodes(self.path@),
                valid_nodes(orig),
                self.path@.to_multiset() == orig.to_multiset(),
                self.path@[0] == orig[0],
                tour_cost(self.path@) <= tour_cost(orig),
                tour_cost(self.path@) >= 0,
                !found_improvement ==> forall|i2: int, j2: int|
                    0 <= i2 < n - 1 && i2 + 2 <= j2 < n ==> two_opt_delta(self.path@, i2, j2)
                        >= 0,
            decreases tour_cost(self.path@) + if found_improvement {
                1int
            } else {
                0int
            },
        {
            found_improvement = false;
            let ghost cost_at_pass = tour_cost(self.path@);
            let mut i: usize = 0;
            while i < n - 1
                invariant
                    self.nodes@ == old(self).nodes@,
                    n == self.path@.len(),
                    n >= 1,
                    i <= n - 1,
                    valid_nodes(self.path@),
                    valid_nodes(orig),
                    self.path@.to_multiset() == orig.to_multiset(),
                    self.path@[0] == orig[0],
                    tour_cost(self.path@) <= tour_cost(orig),
                    tour_cost(self.path@) >= 0,
                    found_improvement ==> tour_cost(self.path@) <= cost_at_pass - 1,
                    !found_improvement ==> tour_cost(self.path@) == cost_at_pass,
                    !found_improvement ==> forall|i2: int, j2: int|
                        0 <= i2 < i && i2 + 2 <= j2 < n ==> two_opt_delta(self.path@, i2, j2)
                            >= 0,
                decreases n - 1 - i,
            {
                let a = i;
                let b = (i + 1) % n;
                let mut j = i + 2;
                proof {
                    assert(b as int == i + 1) by {
                        vstd::arithmetic::div_mod::lemma_small_mod((i + 1) as nat, n as nat);
                    }
                }
                while j < n
                    invariant
                        self.nodes@ == old(self).nodes@,
                        n == self.path@.len(),
                        n >= 1,
                        i < n - 1,
                        a == i,
                        b == i + 1,
                        i + 2 <= j,
                        valid_nodes(self.path@),
                        valid_nodes(orig),
                        self.path@.to_multiset() == orig.to_multiset(),
                        self.path@[0] == orig[0],
                        tour_cost(self.path@) <= tour_cost(orig),
                        tour_cost(self.path@) >= 0,
                        found_improvement ==> tour_cost(self.path@) <= cost_at_pass - 1,
                        !found_improvement ==> tour_cost(self.path@) == cost_at_pass,
                        !found_improvement ==> forall|i2: int, j2: int|
                            0 <= i2 < i && i2 + 2 <= j2 < n ==> two_opt_delta(self.path@, i2, j2)
                                >= 0,
                        !found_improvement ==> forall|j2: int|
                            i + 2 <= j2 < j ==> two_opt_delta(self.path@, i as int, j2) >= 0,
                    decreases n - j,
                {
                    let c = j;
                    let d = (j + 1) % n;
                    let d_ab = self.dist(a, b);
                    let d_cd = self.dist(c, d);
                    let d_ac = self.dist(a, c);
                    let d_bd = self.dist(b, d);
                    let length_delta: i64 = -(d_ab as i64) - (d_cd as i64) + (d_ac as i64) + (d_bd
                        as i64);
                    proof {
                        assert(d as int == (j + 1) % (n as int));
                        assert(length_delta as int == two_opt_delta(
                            self.path@,
                            i as int,
                            j as int,
                        ));
                    }
                    if length_delta < 0 {
                        let ghost before = self.path@;
                        proof {
                            lemma_reversal_cost(before, a as int, c as int);
                            lemma_reversed_seg_mset(before, a as int, c as int);
                            lemma_valid_nodes_mset(before, reversed_seg(before, a as int, c as int));
                            lemma_reversed_seg_index(before, a as int, c as int);
                        }
                        self.swap_edges(a, c);
                        found_improvement = true;
                        proof {
                            assert(self.path@[0] == before[0]);
                            lemma_tour_cost_bounds(self.path@);
                        }
                    }
                    j += 1;
                }
                i += 1;
            }
        }
        dup_nodes(&self.path)
    }

    /// Hands the candidate list and the working tour to the dedicated
    /// 3-opt solver in deterministic mode and adopts its result.
    pub fn three_opt(&mut self) -> (path: Vec<E>)
        requires
            valid_nodes(old(self).spec_path()),
            1 <= old(self).spec_path().len() <= MAX_NODES + 1,
        ensures
            final(self).spec_nodes() == old(self).spec_nodes(),
            path@ == final(self).spec_path(),
            final(self).spec_path().to_multiset() == old(self).spec_path().to_multiset(),
            final(self).spec_path().len() == old(self).spec_path().len(),
            final(self).spec_path()[0] == old(self).spec_path()[0],
            valid_nodes(final(self).spec_path()),
            tour_cost(final(self).spec_path()) <= tour_cost(old(self).spec_path()),
            old(self).spec_path().len() < 5 ==> final(self).spec_path() == old(self).spec_path(),
            three_opt_optimal(final(self).spec_path()),
    {
        let mut solver = ThreeOpt::new(dup_nodes(&self.nodes), dup_nodes(&self.path));
        let result = solver.solve();
        self.path = result;
        dup_nodes(&self.path)
    }

    /// Hands the candidate list and the working tour to the dedicated
    /// 3-opt solver in simulated-annealing mode, with the given random
    /// seed, and adopts its result.
    pub fn three_opt_sm(&mut self, seed: u64) -> (path: Vec<E>)
        requires
            valid_nodes(old(self).spec_path()),
            1 <= old(self).spec_path().len() <= MAX_NODES + 1,
        ensures
            final(self).spec_nodes() == old(self).spec_nodes(),
            path@ == final(self).spec_path(),
            final(self).spec_path().to_multiset() == old(self).spec_path().to_multiset(),
            final(self).spec_path().len() == old(self).spec_path().len(),
            final(self).spec_path()[0] == old(self).spec_path()[0],
            valid_nodes(final(self).spec_path()),
            old(self).spec_path().len() < 5 ==> final(self).spec_path() == old(self).spec_path(),
    {
        let mut solver = ThreeOpt::new(dup_nodes(&self.nodes), dup_nodes(&self.path));
        let result = solver.solve_sm(seed);
        self.path = result;
        dup_nodes(&self.path)
    }

    /// Total cost of the working tour: the weights of consecutive
    /// positions plus the closing edge from the last back to the first.
    pub fn calculate_path_cost(&self) -> (cost: u64)
        requires
            valid_nodes(self.spec_path()),
            1 <= self.spec_path().len() <= MAX_NODES + 1,
        ensures
            cost as int == tour_cost(self.spec_path()),
    {
        let ghost s = self.path@;
        let n = self.path.len();
        let mut cost = self.dist(n - 1, 0);
        proof {
            assert(s[n - 1] == s.last());
            assert(s[0] == s.first());
        }
        let mut idx: usize = 0;
        while idx < n - 1
            invariant
                self.spec_path() == s,
                valid_nodes(s),
                n == s.len(),
                1 <= n <= MAX_NODES + 1,
                idx <= n - 1,
                cost as int == s.last().wt(&s.first()) + chain_cost(s.take(idx + 1)),
                cost as int <= (idx + 1) * (MAX_EDGE_WEIGHT as int),
            decreases n - 1 - idx,
        {
            let d = self.dist(idx, idx + 1);
            proof {
                lemma_chain_cost_take_snoc(s, idx + 1);
                assert(s.take(idx as int + 2)[idx as int] == s[idx as int]);
                assert((idx + 2) * (MAX_EDGE_WEIGHT as int) == (idx + 1) * (MAX_EDGE_WEIGHT as int)
                    + MAX_EDGE_WEIGHT);
            }
            cost = cost + d;
            idx += 1;
        }
        proof {
            assert(s.take(n as int) =~= s);
        }
        cost
    }
}

} // verus!
