use vstd::prelude::*;

use crate::edge::Edge;
use crate::edge::MAX_EDGE_WEIGHT;

verus! {

/// A synthetic routable node carrying one scalar value; the weight of
/// an edge between two such nodes is the sum of their values. Useful
/// for exercising the spanning-tree and tour algorithms on a metric
/// whose costs are exact integers.
#[derive(Clone, Copy, Debug, PartialEq, Eq, Structural)]
pub struct ScalarNode {
    pub value: u64,
}

impl ScalarNode {
    pub fn new(value: u64) -> (node: ScalarNode)
        ensures
            node.value == value,
    {
        ScalarNode { value }
    }
}

impl Edge for ScalarNode {
    open spec fn wf(&self) -> bool {
        self.value <= MAX_EDGE_WEIGHT / 2
    }

    open spec fn compat(&self, other: &Self) -> bool {
        true
    }

    open spec fn wt(&self, other: &Self) -> int {
        self.value + other.value
    }

    proof fn edge_laws(&self, other: &Self) {
    }

    fn weight(&self, other: &Self) -> (w: u64) {
        self.value + other.value
    }

    fn duplicate(&self) -> (copy: Self) {
        ScalarNode { value: self.value }
    }
}

/// `r` is the whole part of the square root of `n`.
pub open spec fn is_isqrt(n: int, r: int) -> bool {
    0 <= r && r * r <= n < (r + 1) * (r + 1)
}

/// The whole part of the square root of a non-negative number.
pub open spec fn isqrt_spec(n: int) -> int {
    let r = choose|r: int| #[trigger] is_isqrt(n, r);
    if is_isqrt(n, r) {
        r
    } else {
        0
    }
}

/// Every non-negative number has a whole square root part.
pub proof fn lemma_isqrt_exists(n: int)
    requires
        n >= 0,
    ensures
        exists|r: int| #[trigger] is_isqrt(n, r),
    decreases n,
{
    if n == 0 {
        assert(is_isqrt(0, 0));
    } else {
        lemma_isqrt_exists(n - 1);
        let r = choose|r: int| #[trigger] is_isqrt(n - 1, r);
        if (r + 1) * (r + 1) <= n {
            assert(n - 1 < (r + 1) * (r + 1));
            assert(n < (r + 2) * (r + 2)) by (nonlinear_arith)
                requires
                    r >= 0,
                    n <= (r + 1) * (r + 1),
            ;
            assert(is_isqrt(n, r + 1));
        } else {
            assert(is_isqrt(n, r));
        }
    }
}

/// The whole square root part is unique.
pub proof fn lemma_isqrt_unique(n: int, r1: int, r2: int)
    requires
        is_isqrt(n, r1),
        is_isqrt(n, r2),
    ensures
        r1 == r2,
{
    if r1 < r2 {
        assert((r1 + 1) * (r1 + 1) <= r2 * r2) by (nonlinear_arith)
            requires
                0 <= r1,
                r1 + 1 <= r2,
        ;
    }
    if r2 < r1 {
        assert((r2 + 1) * (r2 + 1) <= r1 * r1) by (nonlinear_arith)
            requires
                0 <= r2,
                r2 + 1 <= r1,
        ;
    }
}

/// The whole part of the square root, by bisection.
pub fn isqrt(n: u64) -> (r: u64)
    requires
        n <= 0x8_0000_0000_0000,
    ensures
        is_isqrt(n as int, r as int),
        r as int == isqrt_spec(n as int),
{
    let mut lo: u64 = 0;
    let mut hi: u64 = 0x300_0001;
    proof {
        assert((0x300_0001 as int) * (0x300_0001 as int) > 0x8_0000_0000_0000) by (nonlinear_arith);
    }
    while lo + 1 < hi
        invariant
            lo < hi <= 0x300_0001,
            (lo as int) * (lo as int) <= n as int,
            (hi as int) * (hi as int) > n as int,
        decreases hi - lo,
    {
        let mid = lo + (hi - lo) / 2;
        proof {
            assert((mid as int) * (mid as int) <= 0x300_0001 * 0x300_0001) by (nonlinear_arith)
                requires
                    0 <= mid <= 0x300_0001,
            ;
        }
        if mid * mid <= n {
            lo = mid;
        } else {
            hi = mid;
        }
    }
    proof {
        assert(is_isqrt(n as int, lo as int));
        lemma_isqrt_exists(n as int);
        let rc = choose|r: int| #[trigger] is_isqrt(n as int, r);
        lemma_isqrt_unique(n as int, rc, lo as int);
    }
    lo
}

/// Largest coordinate magnitude a plane point may have.
pub const MAX_COORD: i64 = 0x10_0000;

/// A point in the plane with an identifying label; the weight of an
/// edge between two points is their straight-line distance rounded
/// down to a whole unit.
#[derive(Clone, Copy, Debug, PartialEq, Eq, Structural)]
pub struct PlanePoint {
    pub x: i64,
    pub y: i64,
    pub index: i64,
}

impl PlanePoint {
    pub fn new(x: i64, y: i64, index: i64) -> (p: PlanePoint)
        ensures
            p == (PlanePoint { x, y, index }),
    {
        PlanePoint { x, y, index }
    }

    /// The squared straight-line distance to `other`.
    pub open spec fn sq_dist(&self, other: &Self) -> int {
        (self.x - other.x) * (self.x - other.x) + (self.y - other.y) * (self.y - other.y)
    }
}

impl Edge for PlanePoint {
    open spec fn wf(&self) -> bool {
        -MAX_COORD <= self.x <= MAX_COORD && -MAX_COORD <= self.y <= MAX_COORD
    }

    open spec fn compat(&self, other: &Self) -> bool {
        true
    }

    open spec fn wt(&self, other: &Self) -> int {
        isqrt_spec(self.sq_dist(other))
    }

    proof fn edge_laws(&self, other: &Self) {
        assert(self.sq_dist(other) >= 0) by (nonlinear_arith);
        assert(self.sq_dist(other) == other.sq_dist(self)) by (nonlinear_arith);
        assert(self.sq_dist(other) <= 0x8_0000_0000_0000) by (nonlinear_arith)
            requires
                -MAX_COORD <= self.x <= MAX_COORD,
                -MAX_COORD <= self.y <= MAX_COORD,
                -MAX_COORD <= other.x <= MAX_COORD,
                -MAX_COORD <= other.y <= MAX_COORD,
        ;
        lemma_isqrt_exists(self.sq_dist(other));
        let r = choose|r: int| #[trigger] is_isqrt(self.sq_dist(other), r);
        assert(isqrt_spec(self.sq_dist(other)) == r);
        assert(r <= MAX_EDGE_WEIGHT) by (nonlinear_arith)
            requires
                is_isqrt(self.sq_dist(other), r),
                self.sq_dist(other) <= 0x8_0000_0000_0000,
                MAX_EDGE_WEIGHT == 0x1_0000_0000,
        ;
    }

    fn weight(&self, other: &Self) -> (w: u64) {
        let dx = self.x - other.x;
        let dy = self.y - other.y;
        proof {
            assert(dx * dx + dy * dy <= 0x8_0000_0000_0000 && dx * dx >= 0 && dy * dy >= 0)
                by (nonlinear_arith)
                requires
                    -2 * MAX_COORD <= dx <= 2 * MAX_COORD,
                    -2 * MAX_COORD <= dy <= 2 * MAX_COORD,
            ;
        }
        let sq = (dx * dx + dy * dy) as u64;
        isqrt(sq)
    }

    fn duplicate(&self) -> (copy: Self) {
        PlanePoint { x: self.x, y: self.y, index: self.index }
    }
}

/// A routable node whose pairwise weights come precomputed: its
/// position in a symmetric weight table of `N` rows, and its own row
/// of that table. For node sets whose metric the library cannot
/// compute itself (the geodesic one, say), the caller fills the table
/// and the estimators and tour heuristics run over it unchanged.
#[derive(Clone, Copy, Debug)]
pub struct MatrixNode<const N: usize> {
    pub id: usize,
    pub dists: [u64; N],
}

impl<const N: usize> MatrixNode<N> {
    pub fn new(id: usize, dists: [u64; N]) -> (node: MatrixNode<N>)
        ensures
            node.id == id,
            node.dists == dists,
    {
        MatrixNode { id, dists }
    }
}

impl<const N: usize> Edge for MatrixNode<N> {
    open spec fn wf(&self) -> bool {
        self.id < N && forall|t: int| 0 <= t < N ==> self.dists@[t] <= MAX_EDGE_WEIGHT
    }

    open spec fn compat(&self, other: &Self) -> bool {
        self.dists@[other.id as int] == other.dists@[self.id as int]
    }

    open spec fn wt(&self, other: &Self) -> int {
        self.dists@[other.id as int] as int
    }

    proof fn edge_laws(&self, other: &Self) {
        assert(self.dists@[other.id as int] <= MAX_EDGE_WEIGHT);
    }

    fn weight(&self, other: &Self) -> (w: u64) {
        self.dists[other.id]
    }

    fn duplicate(&self) -> (copy: Self) {
        *self
    }
}

} // verus!
