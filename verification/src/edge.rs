use vstd::prelude::*;

use crate::latlon::LatLon;
use crate::latlon::StartingPoint;
use crate::statue::Statue;

verus! {

/// A routable node: either a fixed named waypoint or a validated
/// point-of-interest record. Both expose a coordinate, so either kind
/// may stand in a tour or a node set.
#[derive(Clone, Debug)]
pub enum NodeLatLon {
    StartingPoint(StartingPoint),
    Statue(Statue),
}

impl NodeLatLon {
    /// The coordinate of whichever variant is active.
    pub open spec fn spec_latlon(&self) -> LatLon {
        match self {
            NodeLatLon::StartingPoint(starting_point) => starting_point.spec_latlon(),
            NodeLatLon::Statue(statue) => LatLon { lat: statue.lat, lon: statue.lon },
        }
    }

    /// The coordinate of whichever variant is active.
    pub fn latlon(&self) -> (p: LatLon)
        ensures
            p == self.spec_latlon(),
    {
        match self {
            NodeLatLon::StartingPoint(starting_point) => *starting_point.latlon(),
            NodeLatLon::Statue(statue) => statue.latlon(),
        }
    }
}

/// Upper bound on the weight of a single edge. Every implementor of
/// [`Edge`] keeps its weights at or below this value, so that sums of
/// edge weights over tours of reasonable length fit in a `u64`.
pub const MAX_EDGE_WEIGHT: u64 = 0x1_0000_0000;

/// The capability every routable node kind offers: a pairwise travel
/// cost, in whole metres (or whatever integral unit the node kind uses).
///
/// `wt` is the mathematical weight; `weight` computes it. `wf` is the
/// node's own well-formedness, and `compat` says whether a weight
/// against `other` may be asked for at all (for most node kinds it is
/// always true). `edge_laws` obliges every implementor to keep weights
/// non-negative, bounded and symmetric, which the tour and spanning-tree
/// algorithms rely on.
pub trait Edge: Sized {
    /// Well-formedness of this node on its own.
    spec fn wf(&self) -> bool;

    /// Whether the weight between `self` and `other` is meaningful.
    spec fn compat(&self, other: &Self) -> bool;

    /// The weight of the edge between `self` and `other`.
    spec fn wt(&self, other: &Self) -> int;

    /// Weights are non-negative, bounded by [`MAX_EDGE_WEIGHT`], and
    /// symmetric.
    proof fn edge_laws(&self, other: &Self)
        requires
            self.wf(),
            other.wf(),
            self.compat(other),
            other.compat(self),
        ensures
            0 <= self.wt(other) <= MAX_EDGE_WEIGHT,
            self.wt(other) == other.wt(self),
    ;

    /// Compute the weight of the edge between `self` and `other`.
    fn weight(&self, other: &Self) -> (w: u64)
        requires
            self.wf(),
            other.wf(),
            self.compat(other),
            other.compat(self),
        ensures
            w as int == self.wt(other),
    ;

    /// An exact copy of this node.
    fn duplicate(&self) -> (copy: Self)
        ensures
            copy == *self,
    ;
}

/// An element-by-element copy of a node list.
pub fn dup_nodes<E: Edge>(v: &Vec<E>) -> (r: Vec<E>)
    ensures
        r@ == v@,
{
    let mut r: Vec<E> = Vec::new();
    let mut idx: usize = 0;
    while idx < v.len()
        invariant
            idx <= v.len(),
            r@ == v@.take(idx as int),
        decreases v.len() - idx,
    {
        r.push(v[idx].duplicate());
        idx += 1;
        assert(r@ =~= v@.take(idx as int));
    }
    assert(r@ =~= v@);
    r
}

/// Every node of `s` is well-formed.
pub open spec fn all_wf<E: Edge>(s: Seq<E>) -> bool {
    forall|i: int| 0 <= i < s.len() ==> (#[trigger] s[i]).wf()
}

/// Every pair of nodes of `s` may be weighed against each other.
pub open spec fn all_compat<E: Edge>(s: Seq<E>) -> bool {
    forall|i: int, j: int|
        0 <= i < s.len() && 0 <= j < s.len() ==> (#[trigger] s[i]).compat(#[trigger] &s[j])
}

/// A node set the algorithms can work on: well-formed, pairwise
/// weighable nodes.
pub open spec fn valid_nodes<E: Edge>(s: Seq<E>) -> bool {
    all_wf(s) && all_compat(s)
}

} // verus!
