//! Tropical curves: weighted, balanced 1-dimensional polyhedral complexes.
//!
//! A curve is a graph whose edges carry a weight and a primitive integer
//! direction. At each vertex the balancing condition
//! `Σ weight_e · direction_e = 0` holds, summed over the incident edges
//! (directions taken outgoing). The curve is generic in the vertex type `V`:
//! the combinatorics here read the edges and the number of vertices only.
use vstd::prelude::*;

verus! {

/// An edge of a tropical curve, from vertex `v1` to vertex `v2`.
#[derive(Debug, Clone, PartialEq)]
pub struct CurveEdge {
    /// Index of the first vertex.
    pub v1: usize,
    /// Index of the second vertex.
    pub v2: usize,
    /// Weight (multiplicity) of the edge.
    pub weight: u32,
    /// Direction vector (primitive integer vector), from `v1` towards `v2`.
    pub direction: Vec<i64>,
}

impl CurveEdge {
    /// The edge from `v1` to `v2` with the given weight and direction.
    pub fn new(v1: usize, v2: usize, weight: u32, direction: Vec<i64>) -> (e: Self)
        ensures
            e.v1 == v1,
            e.v2 == v2,
            e.weight == weight,
            e.direction@ == direction@,
    {
        CurveEdge { v1, v2, weight, direction }
    }
}

/// The contribution of edge `e` to coordinate `k` of the balancing sum at
/// vertex `v`: `+weight · direction[k]` when `v` is its first vertex,
/// `-weight · direction[k]` when `v` is only its second vertex, 0 otherwise
/// and beyond the end of the direction.
pub open spec fn balance_term(e: CurveEdge, v: int, k: int) -> int {
    if 0 <= k < e.direction.len() {
        if e.v1 == v {
            e.direction@[k] * e.weight
        } else if e.v2 == v {
            -(e.direction@[k] * e.weight)
        } else {
            0
        }
    } else {
        0
    }
}

/// Coordinate `k` of the balancing sum at `v` over the first `n` edges.
pub open spec fn balance_prefix(edges: Seq<CurveEdge>, v: int, k: int, n: int) -> int
    decreases n,
{
    if n <= 0 {
        0
    } else {
        balance_prefix(edges, v, k, n - 1) + balance_term(edges[n - 1], v, k)
    }
}

/// Coordinate `k` of the balancing sum at `v` over all edges.
pub open spec fn balance_sum(edges: Seq<CurveEdge>, v: int, k: int) -> int {
    balance_prefix(edges, v, k, edges.len() as int)
}

/// Every product `weight · direction[k]` of an edge touching `v` and every
/// partial sum of the balancing sum at `v` fits in an `i64`, in each of the
/// first `dim` coordinates.
pub open spec fn balance_fits(edges: Seq<CurveEdge>, v: int, dim: int) -> bool {
    forall|k: int, n: int|
        0 <= k < dim && 0 < n <= edges.len() ==> {
            &&& i64::MIN <= #[trigger] balance_prefix(edges, v, k, n) <= i64::MAX
            &&& (touches(edges[n - 1], v) && 0 <= k < edges[n - 1].direction.len() ==> i64::MIN
                <= edges[n - 1].direction@[k] * edges[n - 1].weight <= i64::MAX)
        }
}

/// Edge `e` touches vertex `v`.
pub open spec fn touches(e: CurveEdge, v: int) -> bool {
    e.v1 == v || e.v2 == v
}

/// The indices, in order, of the edges among the first `n` that touch `v`.
pub open spec fn incident_upto(edges: Seq<CurveEdge>, v: int, n: int) -> Seq<usize>
    decreases n,
{
    if n <= 0 {
        seq![]
    } else if touches(edges[n - 1], v) {
        incident_upto(edges, v, n - 1).push((n - 1) as usize)
    } else {
        incident_upto(edges, v, n - 1)
    }
}

/// The sum of the weights of the first `n` edges.
pub open spec fn weight_sum(edges: Seq<CurveEdge>, n: int) -> int
    decreases n,
{
    if n <= 0 {
        0
    } else {
        weight_sum(edges, n - 1) + edges[n - 1].weight
    }
}

/// `max(0, E - V + 1)`: the number of independent cycles of a connected
/// graph with `e` edges and `v` vertices.
pub open spec fn genus_spec(e: int, v: int) -> int {
    if e + 1 >= v { e + 1 - v } else { 0 }
}

/// A tropical curve: a weighted balanced 1-dimensional polyhedral complex.
#[derive(Debug, Clone)]
pub struct TropicalCurve<V> {
    /// Vertices of the curve.
    pub vertices: Vec<V>,
    /// Edges of the curve.
    pub edges: Vec<CurveEdge>,
    /// Ambient dimension.
    pub ambient_dim: usize,
}

/// The partial sums of the weights grow with `n`.
proof fn lemma_weight_sum_monotone(edges: Seq<CurveEdge>, a: int, b: int)
    requires
        0 <= a <= b <= edges.len(),
    ensures
        0 <= weight_sum(edges, a) <= weight_sum(edges, b),
    decreases b - a,
{
    if a < b {
        lemma_weight_sum_monotone(edges, a, b - 1);
    } else {
        lemma_weight_sum_nonneg(edges, a);
    }
}

proof fn lemma_weight_sum_nonneg(edges: Seq<CurveEdge>, n: int)
    ensures
        weight_sum(edges, n) >= 0,
    decreases n,
{
    if n > 0 {
        lemma_weight_sum_nonneg(edges, n - 1);
    }
}

impl<V> TropicalCurve<V> {
    /// The curve with the given vertices, edges and ambient dimension.
    pub fn new(vertices: Vec<V>, edges: Vec<CurveEdge>, ambient_dim: usize) -> (c: Self)
        ensures
            c.vertices@ == vertices@,
            c.edges@ == edges@,
            c.ambient_dim == ambient_dim,
    {
        TropicalCurve { vertices, edges, ambient_dim }
    }

    /// Number of vertices.
    pub fn num_vertices(&self) -> (n: usize)
        ensures
            n == self.vertices.len(),
    {
        self.vertices.len()
    }

    /// Number of edges.
    pub fn num_edges(&self) -> (n: usize)
        ensures
            n == self.edges.len(),
    {
        self.edges.len()
    }

    /// The balancing condition at a vertex: `vertex_idx` names a vertex and
    /// the weighted sum of the directions of its edges (outgoing from
    /// `v1`, incoming to `v2`) is zero in each of the ambient coordinates.
    /// Coordinates of a direction beyond the ambient dimension are ignored.
    pub fn is_balanced_at(&self, vertex_idx: usize) -> (b: bool)
        requires
            vertex_idx < self.vertices.len() ==> balance_fits(self.edges@, vertex_idx as int, self.ambient_dim as int),
        ensures
            b == (vertex_idx < self.vertices.len() && forall|k: int|
                0 <= k < self.ambient_dim ==> #[trigger] balance_sum(self.edges@, vertex_idx as int, k) == 0),
    {
        if vertex_idx >= self.vertices.len() {
            return false;
        }
        let ghost v = vertex_idx as int;
        let dim = self.ambient_dim;
        let mut sum: Vec<i64> = Vec::new();
        while sum.len() < dim
            invariant
                sum.len() <= dim,
                forall|k: int| 0 <= k < sum.len() ==> sum@[k] == 0,
            decreases dim - sum.len(),
        {
            sum.push(0);
        }
        let mut e: usize = 0;
        while e < self.edges.len()
            invariant
                e <= self.edges.len(),
                sum.len() == dim,
                dim == self.ambient_dim,
                v == vertex_idx,
                balance_fits(self.edges@, v, dim as int),
                forall|k: int| 0 <= k < dim ==> sum@[k] == #[trigger] balance_prefix(self.edges@, v, k, e as int),
            decreases self.edges.len() - e,
        {
            let edge = &self.edges[e];
            let w = edge.weight as i64;
            if edge.v1 == vertex_idx || edge.v2 == vertex_idx {
                let plus = edge.v1 == vertex_idx;
                let len = if edge.direction.len() <= dim { edge.direction.len() } else { dim };
                let mut k: usize = 0;
                while k < len
                    invariant
                        *edge == self.edges@[e as int],
                        e < self.edges.len(),
                        w == edge.weight,
                        plus == (edge.v1 == vertex_idx),
                        edge.v1 == vertex_idx || edge.v2 == vertex_idx,
                        len <= dim,
                        len <= edge.direction.len(),
                        len == edge.direction.len() || len == dim,
                        k <= len,
                        sum.len() == dim,
                        dim == self.ambient_dim,
                        v == vertex_idx,
                        balance_fits(self.edges@, v, dim as int),
                        forall|x: int| 0 <= x < k ==> sum@[x] == #[trigger] balance_prefix(self.edges@, v, x, e + 1),
                        forall|x: int| k <= x < dim ==> sum@[x] == #[trigger] balance_prefix(self.edges@, v, x, e as int),
                    decreases len - k,
                {
                    assert(i64::MIN <= balance_prefix(self.edges@, v, k as int, e + 1) <= i64::MAX);
                    assert(balance_prefix(self.edges@, v, k as int, e + 1) == balance_prefix(self.edges@, v, k as int, e as int)
                        + balance_term(self.edges@[e as int], v, k as int));
                    let d = edge.direction[k];
                    let t = d * w;
                    if plus {
                        sum[k] = sum[k] + t;
                    } else {
                        sum[k] = sum[k] - t;
                    }
                    k += 1;
                }
                assert forall|x: int| 0 <= x < dim implies sum@[x] == #[trigger] balance_prefix(self.edges@, v, x, e + 1) by {
                    assert(balance_prefix(self.edges@, v, x, e + 1) == balance_prefix(self.edges@, v, x, e as int)
                        + balance_term(self.edges@[e as int], v, x));
                    if x >= len {
                        assert(balance_term(self.edges@[e as int], v, x) == 0);
                    }
                }
            } else {
                assert forall|x: int| 0 <= x < dim implies sum@[x] == #[trigger] balance_prefix(self.edges@, v, x, e + 1) by {
                    assert(balance_prefix(self.edges@, v, x, e + 1) == balance_prefix(self.edges@, v, x, e as int)
                        + balance_term(self.edges@[e as int], v, x));
                    assert(balance_term(self.edges@[e as int], v, x) == 0);
                }
            }
            e += 1;
        }
        let mut k: usize = 0;
        while k < dim
            invariant
                k <= dim,
                sum.len() == dim,
                dim == self.ambient_dim,
                v == vertex_idx,
                forall|x: int| 0 <= x < dim ==> sum@[x] == #[trigger] balance_sum(self.edges@, v, x),
                forall|x: int| 0 <= x < k ==> #[trigger] balance_sum(self.edges@, v, x) == 0,
            decreases dim - k,
        {
            if sum[k] != 0 {
                assert(balance_sum(self.edges@, vertex_idx as int, k as int) != 0);
                return false;
            }
            k += 1;
        }
        true
    }

    /// The balancing condition at every vertex.
    pub fn is_balanced(&self) -> (b: bool)
        requires
            forall|v: int| 0 <= v < self.vertices.len() ==> #[trigger] balance_fits(self.edges@, v, self.ambient_dim as int),
        ensures
            b == forall|v: int, k: int|
                0 <= v < self.vertices.len() && 0 <= k < self.ambient_dim ==> #[trigger] balance_sum(self.edges@, v, k) == 0,
    {
        let mut i: usize = 0;
        while i < self.vertices.len()
            invariant
                i <= self.vertices.len(),
                forall|v: int| 0 <= v < self.vertices.len() ==> #[trigger] balance_fits(self.edges@, v, self.ambient_dim as int),
                forall|v: int, k: int|
                    0 <= v < i && 0 <= k < self.ambient_dim ==> #[trigger] balance_sum(self.edges@, v, k) == 0,
            decreases self.vertices.len() - i,
        {
            assert(balance_fits(self.edges@, i as int, self.ambient_dim as int));
            if !self.is_balanced_at(i) {
                return false;
            }
            i += 1;
        }
        true
    }

    /// The genus `max(0, E - V + 1)`: the number of independent cycles of
    /// a connected curve with `E` edges and `V` vertices.
    pub fn genus(&self) -> (g: usize)
        requires
            self.edges.len() < usize::MAX,
        ensures
            g == genus_spec(self.edges.len() as int, self.vertices.len() as int),
            self.edges.len() + 1 >= self.vertices.len() ==> g == self.edges.len() - self.vertices.len() + 1,
            self.edges.len() + 1 < self.vertices.len() ==> g == 0,
    {
        let e = self.num_edges();
        let v = self.num_vertices();
        if v <= e {
            e - v + 1
        } else {
            0
        }
    }

    /// The indices, in increasing order, of the edges touching a vertex.
    pub fn incident_edges(&self, vertex_idx: usize) -> (r: Vec<usize>)
        ensures
            r@ == incident_upto(self.edges@, vertex_idx as int, self.edges.len() as int),
    {
        let mut r: Vec<usize> = Vec::new();
        let mut i: usize = 0;
        while i < self.edges.len()
            invariant
                i <= self.edges.len(),
                r@ == incident_upto(self.edges@, vertex_idx as int, i as int),
            decreases self.edges.len() - i,
        {
            let e = &self.edges[i];
            if e.v1 == vertex_idx || e.v2 == vertex_idx {
                r.push(i);
            }
            i += 1;
        }
        r
    }

    /// Degree of a vertex: the number of edges touching it.
    pub fn vertex_degree(&self, vertex_idx: usize) -> (d: usize)
        ensures
            d == incident_upto(self.edges@, vertex_idx as int, self.edges.len() as int).len(),
    {
        self.incident_edges(vertex_idx).len()
    }

    /// Total weight: the sum of the edge weights.
    pub fn total_weight(&self) -> (w: u32)
        requires
            weight_sum(self.edges@, self.edges.len() as int) <= u32::MAX,
        ensures
            w == weight_sum(self.edges@, self.edges.len() as int),
    {
        let mut total: u32 = 0;
        let mut i: usize = 0;
        while i < self.edges.len()
            invariant
                i <= self.edges.len(),
                weight_sum(self.edges@, self.edges.len() as int) <= u32::MAX,
                total == weight_sum(self.edges@, i as int),
            decreases self.edges.len() - i,
        {
            proof {
                lemma_weight_sum_monotone(self.edges@, i + 1, self.edges.len() as int);
            }
            total = total + self.edges[i].weight;
            i += 1;
        }
        total
    }
}

/// The genus is the cycle rank `E - V + 1` of a graph with `e` edges and
/// `v` vertices whenever that is not negative, and 0 otherwise; one more
/// edge then raises it by exactly one.
pub proof fn lemma_genus_is_cycle_rank(e: int, v: int)
    requires
        0 <= e,
        0 <= v,
    ensures
        e + 1 >= v ==> genus_spec(e, v) == e - v + 1,
        e + 1 < v ==> genus_spec(e, v) == 0,
        e + 1 >= v ==> genus_spec(e + 1, v) == genus_spec(e, v) + 1,
        genus_spec(e, v) >= 0,
{
}

/// `f` is `e` reversed: the same edge traversed from `e.v2` to `e.v1`,
/// with the same weight and the negated direction.
pub open spec fn reverses(f: CurveEdge, e: CurveEdge) -> bool {
    &&& f.v1 == e.v2
    &&& f.v2 == e.v1
    &&& f.weight == e.weight
    &&& f.direction.len() == e.direction.len()
    &&& forall|k: int| 0 <= k < e.direction.len() ==> f.direction@[k] == -e.direction@[k]
}

/// An edge counts `+weight * direction` at its first vertex and exactly
/// `-weight * direction` (weight included) at its second vertex.
pub proof fn lemma_edge_contributions(e: CurveEdge, k: int)
    requires
        e.v1 != e.v2,
        0 <= k < e.direction.len(),
    ensures
        balance_term(e, e.v1 as int, k) == e.weight * e.direction@[k],
        balance_term(e, e.v2 as int, k) == -(e.weight * e.direction@[k]),
        forall|v: int| v != e.v1 && v != e.v2 ==> balance_term(e, v, k) == 0,
{
    let (d, w) = (e.direction@[k] as int, e.weight as int);
    assert(d * w == w * d) by (nonlinear_arith);
}

/// Reversing an edge (swapping its endpoints and negating its direction)
/// does not change its contribution to the balancing sum at any vertex.
pub proof fn lemma_reversed_edge_term(e: CurveEdge, f: CurveEdge, v: int, k: int)
    requires
        e.v1 != e.v2,
        reverses(f, e),
    ensures
        balance_term(f, v, k) == balance_term(e, v, k),
{
    if 0 <= k < e.direction.len() {
        let (d, w) = (e.direction@[k] as int, e.weight as int);
        assert((-d) * w == -(d * w)) by (nonlinear_arith);
        assert(-((-d) * w) == d * w) by (nonlinear_arith);
    }
}

/// Reversing one edge of a curve leaves the balancing sum unchanged at every
/// vertex and in every coordinate, so it does not change whether the curve
/// is balanced.
pub proof fn lemma_reversing_an_edge_keeps_balance(edges: Seq<CurveEdge>, edges2: Seq<CurveEdge>, j: int, v: int, k: int)
    requires
        0 <= j < edges.len(),
        edges2.len() == edges.len(),
        edges[j].v1 != edges[j].v2,
        reverses(edges2[j], edges[j]),
        forall|t: int| 0 <= t < edges.len() && t != j ==> edges2[t] == edges[t],
    ensures
        balance_sum(edges2, v, k) == balance_sum(edges, v, k),
{
    lemma_reversed_prefix(edges, edges2, j, v, k, edges.len() as int);
}

proof fn lemma_reversed_prefix(edges: Seq<CurveEdge>, edges2: Seq<CurveEdge>, j: int, v: int, k: int, n: int)
    requires
        0 <= j < edges.len(),
        0 <= n <= edges.len(),
        edges2.len() == edges.len(),
        edges[j].v1 != edges[j].v2,
        reverses(edges2[j], edges[j]),
        forall|t: int| 0 <= t < edges.len() && t != j ==> edges2[t] == edges[t],
    ensures
        balance_prefix(edges2, v, k, n) == balance_prefix(edges, v, k, n),
    decreases n,
{
    if n > 0 {
        lemma_reversed_prefix(edges, edges2, j, v, k, n - 1);
        if n - 1 == j {
            lemma_reversed_edge_term(edges[j], edges2[j], v, k);
        }
    }
}

/// The balancing sum adds up the contributions of the edges one by one:
/// it is zero without edges, and one more edge adds its own contribution.
pub proof fn lemma_balance_sum_adds_edges(edges: Seq<CurveEdge>, e: CurveEdge, v: int, k: int)
    ensures
        balance_sum(Seq::<CurveEdge>::empty(), v, k) == 0,
        balance_sum(edges.push(e), v, k) == balance_sum(edges, v, k) + balance_term(e, v, k),
{
    lemma_prefix_of_push(edges, e, v, k, edges.len() as int);
}

proof fn lemma_prefix_of_push(edges: Seq<CurveEdge>, e: CurveEdge, v: int, k: int, n: int)
    requires
        0 <= n <= edges.len(),
    ensures
        balance_prefix(edges.push(e), v, k, n) == balance_prefix(edges, v, k, n),
    decreases n,
{
    if n > 0 {
        lemma_prefix_of_push(edges, e, v, k, n - 1);
        assert(edges.push(e)[n - 1] == edges[n - 1]);
    }
}

/// The total weight adds up the edge weights: zero without edges, and one
/// more edge adds its weight.
pub proof fn lemma_weight_sum_adds_edges(edges: Seq<CurveEdge>, e: CurveEdge)
    ensures
        weight_sum(Seq::<CurveEdge>::empty(), 0) == 0,
        weight_sum(edges.push(e), edges.len() + 1int) == weight_sum(edges, edges.len() as int) + e.weight,
{
    lemma_weight_prefix_of_push(edges, e, edges.len() as int);
}

proof fn lemma_weight_prefix_of_push(edges: Seq<CurveEdge>, e: CurveEdge, n: int)
    requires
        0 <= n <= edges.len(),
    ensures
        weight_sum(edges.push(e), n) == weight_sum(edges, n),
    decreases n,
{
    if n > 0 {
        lemma_weight_prefix_of_push(edges, e, n - 1);
        assert(edges.push(e)[n - 1] == edges[n - 1]);
    }
}

/// The incident edges of a vertex are exactly the edges touching it,
/// listed once each in increasing order of index.
pub proof fn lemma_incident_edges_are_the_touching_ones(edges: Seq<CurveEdge>, v: int, n: int)
    requires
        0 <= n <= edges.len(),
        edges.len() <= usize::MAX,
    ensures
        forall|t: int| 0 <= t < n ==> (incident_upto(edges, v, n).contains(t as usize) <==> touches(edges[t], v)),
        forall|a: int, b: int|
            0 <= a < b < incident_upto(edges, v, n).len() ==> incident_upto(edges, v, n)[a] < incident_upto(
                edges,
                v,
                n,
            )[b],
        forall|a: int| 0 <= a < incident_upto(edges, v, n).len() ==> incident_upto(edges, v, n)[a] < n,
    decreases n,
{
    if n > 0 {
        lemma_incident_edges_are_the_touching_ones(edges, v, n - 1);
        let prev = incident_upto(edges, v, n - 1);
        let cur = incident_upto(edges, v, n);
        assert forall|t: int| 0 <= t < n implies (cur.contains(t as usize) <==> touches(edges[t], v)) by {
            if touches(edges[n - 1], v) {
                assert(cur == prev.push((n - 1) as usize));
                if t < n - 1 {
                    if cur.contains(t as usize) {
                        let x = choose|x: int| 0 <= x < cur.len() && cur[x] == t as usize;
                        if x < prev.len() {
                            assert(prev[x] == cur[x]);
                        }
                    }
                    if prev.contains(t as usize) {
                        let x = choose|x: int| 0 <= x < prev.len() && prev[x] == t as usize;
                        assert(cur[x] == prev[x]);
                    }
                } else {
                    assert(cur[prev.len() as int] == t as usize);
                }
            } else {
                if t == n - 1 && cur.contains(t as usize) {
                    let x = choose|x: int| 0 <= x < cur.len() && cur[x] == t as usize;
                    assert(prev[x] < n - 1);
                }
            }
        }
    }
}

} // verus!
