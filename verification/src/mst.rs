use vstd::prelude::*;

use crate::cost::lemma_valid_nodes_mset;
use crate::cost::MAX_NODES;
use crate::edge::dup_nodes;
use crate::edge::valid_nodes;
use crate::edge::Edge;
use crate::edge::MAX_EDGE_WEIGHT;
use vstd::seq_lib::lemma_multiset_commutative;

verus! {

/// One recorded spanning-tree edge: an unordered pair of nodes, kept
/// in the orientation the scan found it in (`a` visited, `b` new).
pub struct TreeEdge<N: Edge> {
    pub a: N,
    pub b: N,
}

impl<N: Edge> TreeEdge<N> {
    /// The weight of this edge.
    pub open spec fn spec_cost(&self) -> int {
        self.a.wt(&self.b)
    }

    /// Compute the weight of this edge.
    pub fn cost(&self) -> (c: u64)
        requires
            self.a.wf(),
            self.b.wf(),
            self.a.compat(&self.b),
            self.b.compat(&self.a),
        ensures
            c as int == self.spec_cost(),
            c <= MAX_EDGE_WEIGHT,
    {
        proof {
            self.a.edge_laws(&self.b);
        }
        self.a.weight(&self.b)
    }
}

/// `(x1, y1)` comes strictly before `(x2, y2)` in the scan order of
/// the pair search: by visited index first, then by pool index.
pub open spec fn lex_before(x1: int, y1: int, x2: int, y2: int) -> bool {
    x1 < x2 || (x1 == x2 && y1 < y2)
}

/// Weight of the candidate edge between visited node `x` and pool
/// node `y`.
pub open spec fn pair_wt<E: Edge>(visited: Seq<E>, pool: Seq<E>, x: int, y: int) -> int {
    visited[x].wt(&pool[y])
}

/// `(vi, pj)` is the pair a full scan with a strict `<` update settles
/// on: every pair scanned earlier weighs strictly more, and no pair
/// scanned later weighs less.
pub open spec fn is_first_min_pair<E: Edge>(
    visited: Seq<E>,
    pool: Seq<E>,
    vi: int,
    pj: int,
) -> bool {
    &&& 0 <= vi < visited.len()
    &&& 0 <= pj < pool.len()
    &&& forall|x: int, y: int|
        0 <= x < visited.len() && 0 <= y < pool.len() && lex_before(x, y, vi, pj)
            ==> #[trigger] pair_wt(visited, pool, x, y) > pair_wt(visited, pool, vi, pj)
    &&& forall|x: int, y: int|
        0 <= x < visited.len() && 0 <= y < pool.len() && lex_before(vi, pj, x, y)
            ==> #[trigger] pair_wt(visited, pool, x, y) >= pair_wt(visited, pool, vi, pj)
}

/// A full scan always settles on some pair.
pub proof fn lemma_first_min_pair_exists<E: Edge>(visited: Seq<E>, pool: Seq<E>)
    requires
        visited.len() >= 1,
        pool.len() >= 1,
    ensures
        exists|vi: int, pj: int| is_first_min_pair(visited, pool, vi, pj),
    decreases visited.len(),
{
    let vlen = visited.len() as int;
    let plen = pool.len() as int;
    let last = vlen - 1;
    let roww = Seq::new(pool.len(), |y: int| pair_wt(visited, pool, last, y));
    crate::cost::lemma_first_min_exists(roww);
    let m = choose|m: int| crate::cost::is_first_min(roww, m);
    if vlen == 1 {
        assert forall|x: int, y: int|
            0 <= x < vlen && 0 <= y < plen && lex_before(x, y, 0, m) implies #[trigger] pair_wt(
            visited,
            pool,
            x,
            y,
        ) > pair_wt(visited, pool, 0, m) by {
            assert(roww[y] == pair_wt(visited, pool, 0, y));
            assert(roww[m] == pair_wt(visited, pool, 0, m));
            assert(roww[y] > roww[m]);
        }
        assert forall|x: int, y: int|
            0 <= x < vlen && 0 <= y < plen && lex_before(0, m, x, y) implies #[trigger] pair_wt(
            visited,
            pool,
            x,
            y,
        ) >= pair_wt(visited, pool, 0, m) by {
            assert(roww[y] == pair_wt(visited, pool, 0, y));
            assert(roww[m] == pair_wt(visited, pool, 0, m));
            assert(roww[y] >= roww[m]);
        }
        assert(is_first_min_pair(visited, pool, 0, m));
    } else {
        let prefix = visited.drop_last();
        lemma_first_min_pair_exists(prefix, pool);
        let (vi, pj) = choose|vi: int, pj: int| is_first_min_pair(prefix, pool, vi, pj);
        assert(forall|x: int, y: int|
            0 <= x < prefix.len() && 0 <= y < plen ==> #[trigger] pair_wt(prefix, pool, x, y)
                == pair_wt(visited, pool, x, y));
        if pair_wt(visited, pool, last, m) < pair_wt(visited, pool, vi, pj) {
            assert forall|x: int, y: int|
                0 <= x < vlen && 0 <= y < plen && lex_before(x, y, last, m) implies #[trigger] pair_wt(
                visited,
                pool,
                x,
                y,
            ) > pair_wt(visited, pool, last, m) by {
                if x < last {
                    assert(pair_wt(prefix, pool, x, y) >= pair_wt(prefix, pool, vi, pj));
                } else {
                    assert(roww[y] > roww[m]);
                }
            }
            assert forall|x: int, y: int|
                0 <= x < vlen && 0 <= y < plen && lex_before(last, m, x, y) implies #[trigger] pair_wt(
                visited,
                pool,
                x,
                y,
            ) >= pair_wt(visited, pool, last, m) by {
                assert(x == last && y > m);
                assert(roww[y] >= roww[m]);
            }
            assert(is_first_min_pair(visited, pool, last, m));
        } else {
            assert forall|x: int, y: int|
                0 <= x < vlen && 0 <= y < plen && lex_before(x, y, vi, pj) implies #[trigger] pair_wt(
                visited,
                pool,
                x,
                y,
            ) > pair_wt(visited, pool, vi, pj) by {
                assert(pair_wt(prefix, pool, x, y) > pair_wt(prefix, pool, vi, pj));
            }
            assert forall|x: int, y: int|
                0 <= x < vlen && 0 <= y < plen && lex_before(vi, pj, x, y) implies #[trigger] pair_wt(
                visited,
                pool,
                x,
                y,
            ) >= pair_wt(visited, pool, vi, pj) by {
                if x < last {
                    assert(pair_wt(prefix, pool, x, y) >= pair_wt(prefix, pool, vi, pj));
                } else {
                    if y < m {
                        assert(roww[y] > roww[m]);
                    } else {
                        assert(roww[y] >= roww[m]);
                    }
                    assert(pair_wt(visited, pool, last, y) >= pair_wt(visited, pool, last, m));
                }
            }
            assert(is_first_min_pair(visited, pool, vi, pj));
        }
    }
}

/// The pair a full scan settles on is unique.
pub proof fn lemma_first_min_pair_unique<E: Edge>(
    visited: Seq<E>,
    pool: Seq<E>,
    vi1: int,
    pj1: int,
    vi2: int,
    pj2: int,
)
    requires
        is_first_min_pair(visited, pool, vi1, pj1),
        is_first_min_pair(visited, pool, vi2, pj2),
    ensures
        vi1 == vi2 && pj1 == pj2,
{
    if lex_before(vi1, pj1, vi2, pj2) {
        assert(pair_wt(visited, pool, vi1, pj1) > pair_wt(visited, pool, vi2, pj2));
        assert(pair_wt(visited, pool, vi2, pj2) >= pair_wt(visited, pool, vi1, pj1));
    } else if lex_before(vi2, pj2, vi1, pj1) {
        assert(pair_wt(visited, pool, vi2, pj2) > pair_wt(visited, pool, vi1, pj1));
        assert(pair_wt(visited, pool, vi1, pj1) >= pair_wt(visited, pool, vi2, pj2));
    }
}

/// The pair the scan of one Prim step picks.
pub open spec fn prim_pick<E: Edge>(visited: Seq<E>, pool: Seq<E>) -> (int, int) {
    let (vi, pj) = choose|vi: int, pj: int| is_first_min_pair(visited, pool, vi, pj);
    if is_first_min_pair(visited, pool, vi, pj) {
        (vi, pj)
    } else {
        (0, 0)
    }
}

/// The edges Prim's algorithm records, starting from the visited set
/// `visited` with the unvisited pool `pool`: each step records the
/// scan-order-first minimum-weight (visited, unvisited) pair and moves
/// its unvisited endpoint into the visited set.
pub open spec fn prim_edges<E: Edge>(visited: Seq<E>, pool: Seq<E>) -> Seq<TreeEdge<E>>
    decreases pool.len(),
{
    if pool.len() == 0 || visited.len() == 0 {
        Seq::empty()
    } else {
        let (vi, pj) = prim_pick(visited, pool);
        seq![TreeEdge { a: visited[vi], b: pool[pj] }] + prim_edges(
            visited.push(pool[pj]),
            pool.remove(pj),
        )
    }
}

/// The edges Prim's algorithm records over a node list, growing from
/// the first node.
pub open spec fn mst_edges<E: Edge>(nodes: Seq<E>) -> Seq<TreeEdge<E>> {
    if nodes.len() == 0 {
        Seq::empty()
    } else {
        prim_edges(seq![nodes[0]], nodes.drop_first())
    }
}

/// Total cost of a list of recorded edges.
pub open spec fn edges_cost<E: Edge>(es: Seq<TreeEdge<E>>) -> int
    decreases es.len(),
{
    if es.len() == 0 {
        0
    } else {
        es[0].spec_cost() + edges_cost(es.drop_first())
    }
}

/// Both endpoints of every recorded edge are well-formed and mutually
/// weighable.
pub open spec fn edges_valid<E: Edge>(es: Seq<TreeEdge<E>>) -> bool {
    forall|k: int|
        0 <= k < es.len() ==> {
            &&& (#[trigger] es[k]).a.wf()
            &&& es[k].b.wf()
            &&& es[k].a.compat(&es[k].b)
            &&& es[k].b.compat(&es[k].a)
        }
}

/// Prim's edge list records one edge per pool node, and all its edges
/// connect nodes of the combined set.
pub proof fn lemma_prim_edges_props<E: Edge>(visited: Seq<E>, pool: Seq<E>)
    requires
        valid_nodes(visited + pool),
        visited.len() >= 1,
    ensures
        prim_edges(visited, pool).len() == pool.len(),
        edges_valid(prim_edges(visited, pool)),
    decreases pool.len(),
{
    broadcast use vstd::seq_lib::group_to_multiset_ensures;
    broadcast use vstd::multiset::group_multiset_axioms;

    if pool.len() > 0 {
        let (vi, pj) = prim_pick(visited, pool);
        assert(0 <= vi < visited.len() && 0 <= pj < pool.len()) by {
            lemma_first_min_pair_exists(visited, pool);
        }
        let visited2 = visited.push(pool[pj]);
        let pool2 = pool.remove(pj);
        assert((visited2 + pool2).to_multiset() == (visited + pool).to_multiset()) by {
            lemma_multiset_commutative(visited, pool);
            lemma_multiset_commutative(visited2, pool2);
            assert(pool.contains(pool[pj]));
            assert(pool.to_multiset().count(pool[pj]) > 0);
            assert(visited2.to_multiset() =~= visited.to_multiset().insert(pool[pj]));
            assert(pool2.to_multiset() == pool.to_multiset().remove(pool[pj]));
            assert(visited2.to_multiset().add(pool2.to_multiset()) =~= visited.to_multiset().add(
                pool.to_multiset(),
            ));
        }
        lemma_valid_nodes_mset(visited + pool, visited2 + pool2);
        lemma_prim_edges_props(visited2, pool2);
        let joint = visited + pool;
        assert(visited[vi] == joint[vi]);
        assert(pool[pj] == joint[visited.len() + pj]);
        let es = prim_edges(visited, pool);
        let rest = prim_edges(visited2, pool2);
        assert(es == seq![TreeEdge { a: visited[vi], b: pool[pj] }] + rest);
        assert forall|k: int| 0 <= k < es.len() implies {
            &&& (#[trigger] es[k]).a.wf()
            &&& es[k].b.wf()
            &&& es[k].a.compat(&es[k].b)
            &&& es[k].b.compat(&es[k].a)
        } by {
            if k == 0 {
                assert(es[0].a == joint[vi]);
                assert(es[0].b == joint[visited.len() + pj]);
            } else {
                assert(es[k] == rest[k - 1]);
            }
        }
    }
}

/// Total cost distributes over concatenation of edge lists.
pub proof fn lemma_edges_cost_concat<E: Edge>(a: Seq<TreeEdge<E>>, b: Seq<TreeEdge<E>>)
    ensures
        edges_cost(a + b) == edges_cost(a) + edges_cost(b),
    decreases a.len(),
{
    if a.len() == 0 {
        assert(a + b =~= b);
    } else {
        assert((a + b).drop_first() =~= a.drop_first() + b);
        lemma_edges_cost_concat(a.drop_first(), b);
    }
}

/// The minimum-spanning-tree estimator: a node set, and the tree edges
/// the last solve recorded over it.
pub struct MST<E: Edge> {
    nodes: Vec<E>,
    edges: Vec<TreeEdge<E>>,
}

impl<E: Edge> MST<E> {
    /// The node set.
    pub closed spec fn spec_nodes(&self) -> Seq<E> {
        self.nodes@
    }

    /// The recorded spanning-tree edges.
    pub closed spec fn spec_edges(&self) -> Seq<TreeEdge<E>> {
        self.edges@
    }

    /// A new estimator over `nodes`, with no edges recorded yet.
    pub fn new(nodes: Vec<E>) -> (mst: Self)
        ensures
            mst.spec_nodes() == nodes@,
            mst.spec_edges() == Seq::<TreeEdge<E>>::empty(),
    {
        let mst = MST { nodes, edges: Vec::new() };
        proof {
            assert(mst.edges@ =~= Seq::<TreeEdge<E>>::empty());
        }
        mst
    }

    /// Finds the spanning tree by Prim's algorithm. The first node is
    /// the initially visited one; until every node is visited, the
    /// scan-order-first minimum-weight (visited, unvisited) pair is
    /// recorded as a tree edge and its unvisited endpoint moves into
    /// the visited set. An empty node set records no edges.
    pub fn solve(&mut self)
        requires
            valid_nodes(old(self).spec_nodes()),
        ensures
            final(self).spec_nodes() == old(self).spec_nodes(),
            final(self).spec_edges() == mst_edges(old(self).spec_nodes()),
    {
        let ghost nodes0 = self.nodes@;
        let mut pool = dup_nodes(&self.nodes);
        let mut visited: Vec<E> = Vec::new();
        let mut edges: Vec<TreeEdge<E>> = Vec::new();
        if pool.len() > 0 {
            let first = pool.remove(0);
            visited.push(first);
            proof {
                assert(visited@ =~= seq![nodes0[0]]);
                assert(pool@ =~= nodes0.drop_first());
                assert(visited@ + pool@ =~= nodes0);
                assert(edges@ + prim_edges(visited@, pool@) =~= mst_edges(nodes0));
            }
            while pool.len() > 0
                invariant
                    valid_nodes(nodes0),
                    self.nodes@ == nodes0,
                    visited@.len() >= 1,
                    visited@.len() + pool@.len() == nodes0.len(),
                    (visited@ + pool@).to_multiset() == nodes0.to_multiset(),
                    edges@ + prim_edges(visited@, pool@) == mst_edges(nodes0),
                decreases pool@.len(),
            {
                let ghost vis0 = visited@;
                let ghost pool0 = pool@;
                proof {
                    lemma_valid_nodes_mset(nodes0, visited@ + pool@);
                    let joint = vis0 + pool0;
                    assert(joint[0] == vis0[0]);
                    assert(joint[vis0.len() as int] == pool0[0]);
                }
                let vlen = visited.len();
                let plen = pool.len();
                let mut best_dist = visited[0].weight(&pool[0]);
                let mut best_vi: usize = 0;
                let mut best_pj: usize = 0;
                let mut i: usize = 0;
                while i < vlen
                    invariant
                        visited@ == vis0,
                        pool@ == pool0,
                        vlen == vis0.len(),
                        plen == pool0.len(),
                        plen > 0,
                        valid_nodes(vis0 + pool0),
                        i <= vlen,
                        best_vi < vlen,
                        best_pj < plen,
                        best_dist as int == pair_wt(vis0, pool0, best_vi as int, best_pj as int),
                        forall|x: int, y: int|
                            0 <= x < vlen && 0 <= y < plen && lex_before(
                                x,
                                y,
                                best_vi as int,
                                best_pj as int,
                            ) ==> #[trigger] pair_wt(vis0, pool0, x, y) > pair_wt(
                                vis0,
                                pool0,
                                best_vi as int,
                                best_pj as int,
                            ),
                        forall|x: int, y: int|
                            0 <= x < vlen && 0 <= y < plen && lex_before(
                                best_vi as int,
                                best_pj as int,
                                x,
                                y,
                            ) && lex_before(x, y, i as int, 0) ==> #[trigger] pair_wt(
                                vis0,
                                pool0,
                                x,
                                y,
                            ) >= pair_wt(vis0, pool0, best_vi as int, best_pj as int),
                    decreases vlen - i,
                {
                    let mut j: usize = 0;
                    while j < plen
                        invariant
                            visited@ == vis0,
                            pool@ == pool0,
                            vlen == vis0.len(),
                            plen == pool0.len(),
                            plen > 0,
                            valid_nodes(vis0 + pool0),
                            i < vlen,
                            j <= plen,
                            best_vi < vlen,
                            best_pj < plen,
                            best_dist as int == pair_wt(
                                vis0,
                                pool0,
                                best_vi as int,
                                best_pj as int,
                            ),
                            forall|x: int, y: int|
                                0 <= x < vlen && 0 <= y < plen && lex_before(
                                    x,
                                    y,
                                    best_vi as int,
                                    best_pj as int,
                                ) ==> #[trigger] pair_wt(vis0, pool0, x, y) > pair_wt(
                                    vis0,
                                    pool0,
                                    best_vi as int,
                                    best_pj as int,
                                ),
                            forall|x: int, y: int|
                                0 <= x < vlen && 0 <= y < plen && lex_before(
                                    best_vi as int,
                                    best_pj as int,
                                    x,
                                    y,
                                ) && lex_before(x, y, i as int, j as int) ==> #[trigger] pair_wt(
                                    vis0,
                                    pool0,
                                    x,
                                    y,
                                ) >= pair_wt(vis0, pool0, best_vi as int, best_pj as int),
                        decreases plen - j,
                    {
                        proof {
                            let joint = vis0 + pool0;
                            assert(joint[i as int] == vis0[i as int]);
                            assert(joint[vis0.len() + j] == pool0[j as int]);
                        }
                        let w = visited[i].weight(&pool[j]);
                        proof {
                            assert(w as int == pair_wt(vis0, pool0, i as int, j as int));
                        }
                        if w < best_dist {
                            best_dist = w;
                            best_vi = i;
                            best_pj = j;
                        }
                        j += 1;
                    }
                    i += 1;
                }
                proof {
                    assert(is_first_min_pair(vis0, pool0, best_vi as int, best_pj as int));
                    lemma_first_min_pair_exists(vis0, pool0);
                    let (cvi, cpj) = choose|vi: int, pj: int|
                        is_first_min_pair(vis0, pool0, vi, pj);
                    lemma_first_min_pair_unique(
                        vis0,
                        pool0,
                        cvi,
                        cpj,
                        best_vi as int,
                        best_pj as int,
                    );
                    assert(prim_pick(vis0, pool0) == (best_vi as int, best_pj as int));
                }
                let ghost edges_before = edges@;
                let a = visited[best_vi].duplicate();
                let chosen = pool.remove(best_pj);
                let b = chosen.duplicate();
                edges.push(TreeEdge { a, b });
                visited.push(chosen);
                proof {
                    broadcast use vstd::seq_lib::group_to_multiset_ensures;
                    broadcast use vstd::multiset::group_multiset_axioms;

                    let bvi = best_vi as int;
                    let bpj = best_pj as int;
                    assert(prim_edges(vis0, pool0) == seq![
                        TreeEdge { a: vis0[bvi], b: pool0[bpj] },
                    ] + prim_edges(vis0.push(pool0[bpj]), pool0.remove(bpj)));
                    assert(visited@ == vis0.push(pool0[bpj]));
                    assert(pool@ == pool0.remove(bpj));
                    assert(edges@ == edges_before.push(TreeEdge { a: vis0[bvi], b: pool0[bpj] }));
                    assert(edges@ + prim_edges(visited@, pool@) =~= edges_before + prim_edges(
                        vis0,
                        pool0,
                    ));
                    assert(pool0.contains(pool0[bpj]));
                    assert(pool0.to_multiset().count(chosen) > 0);
                    assert(visited@.to_multiset() =~= vis0.to_multiset().insert(chosen));
                    assert(pool@.to_multiset() == pool0.to_multiset().remove(chosen));
                    lemma_multiset_commutative(vis0, pool0);
                    lemma_multiset_commutative(visited@, pool@);
                    assert((visited@ + pool@).to_multiset() =~= (vis0 + pool0).to_multiset());
                }
            }
            proof {
                assert(prim_edges(visited@, pool@) =~= Seq::<TreeEdge<E>>::empty());
                assert(edges@ =~= edges@ + Seq::<TreeEdge<E>>::empty());
            }
        } else {
            proof {
                assert(nodes0.len() == 0);
                assert(edges@ =~= mst_edges(nodes0));
            }
        }
        self.edges = edges;
    }

    /// Total cost of the recorded spanning tree: the sum of its edge
    /// weights.
    pub fn calculate_cost(&self) -> (cost: u64)
        requires
            edges_valid(self.spec_edges()),
            self.spec_edges().len() <= MAX_NODES,
        ensures
            cost as int == edges_cost(self.spec_edges()),
    {
        let ghost es = self.edges@;
        let mut cost: u64 = 0;
        let mut k: usize = 0;
        proof {
            assert(es.take(0) =~= Seq::<TreeEdge<E>>::empty());
        }
        while k < self.edges.len()
            invariant
                es == self.edges@,
                edges_valid(es),
                es.len() <= MAX_NODES,
                k <= es.len(),
                cost as int == edges_cost(es.take(k as int)),
                cost as int <= k * (MAX_EDGE_WEIGHT as int),
            decreases es.len() - k,
        {
            let c = self.edges[k].cost();
            proof {
                let ki = k as int;
                assert(es.take(ki + 1) =~= es.take(ki) + seq![es[ki]]);
                lemma_edges_cost_concat(es.take(ki), seq![es[ki]]);
                assert(edges_cost(Seq::<TreeEdge<E>>::empty()) == 0);
                assert(seq![es[ki]].drop_first() =~= Seq::<TreeEdge<E>>::empty());
                assert(edges_cost(seq![es[ki]]) == es[ki].spec_cost() + edges_cost(
                    seq![es[ki]].drop_first(),
                ));
                assert((ki + 1) * (MAX_EDGE_WEIGHT as int) == ki * (MAX_EDGE_WEIGHT as int)
                    + MAX_EDGE_WEIGHT);
            }
            cost = cost + c;
            k += 1;
        }
        proof {
            assert(es.take(es.len() as int) =~= es);
        }
        cost
    }
}

} // verus!
