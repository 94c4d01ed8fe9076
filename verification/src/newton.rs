//! Newton polytopes: lattice points, their arithmetic, and polytopes spanned
//! by the exponent vectors of a tropical polynomial.
//!
//! The tropical hypersurface of a polynomial is dual to a polyhedral
//! subdivision of its Newton polytope, the convex hull of its exponent
//! vectors.
use vstd::prelude::*;
use crate::polynomial::TropicalPolynomial;
use crate::rank::{int_rows, rank_of_vectors, rank_spec};

verus! {

/// A sequence of machine integers read as mathematical integers.
pub open spec fn int_coords(s: Seq<i64>) -> Seq<int> {
    s.map_values(|x: i64| x as int)
}

/// The length of the common part of two coordinate vectors.
pub open spec fn common_len(a: Seq<i64>, b: Seq<i64>) -> int {
    if a.len() <= b.len() { a.len() as int } else { b.len() as int }
}

/// `Σ_{k < n} a[k] * b[k]`.
pub open spec fn dot_prefix(a: Seq<i64>, b: Seq<i64>, n: int) -> int
    decreases n,
{
    if n <= 0 {
        0
    } else {
        dot_prefix(a, b, n - 1) + a[n - 1] * b[n - 1]
    }
}

/// The dot product over the common coordinates.
pub open spec fn dot_spec(a: Seq<i64>, b: Seq<i64>) -> int {
    dot_prefix(a, b, common_len(a, b))
}

/// Every product and every partial sum of the dot product fits in an `i64`.
pub open spec fn dot_fits(a: Seq<i64>, b: Seq<i64>) -> bool {
    forall|n: int|
        0 < n <= common_len(a, b) ==> {
            &&& i64::MIN <= #[trigger] dot_prefix(a, b, n) <= i64::MAX
            &&& i64::MIN <= a[n - 1] * b[n - 1] <= i64::MAX
        }
}

/// The coordinatewise sum over the common coordinates.
pub open spec fn lattice_add(a: Seq<i64>, b: Seq<i64>) -> Seq<int> {
    Seq::new(common_len(a, b) as nat, |k: int| a[k] + b[k])
}

/// The coordinatewise difference over the common coordinates.
pub open spec fn lattice_sub(a: Seq<i64>, b: Seq<i64>) -> Seq<int> {
    Seq::new(common_len(a, b) as nat, |k: int| a[k] - b[k])
}

/// Every entry of `lattice_add(a, b)` fits in an `i64`.
pub open spec fn add_fits(a: Seq<i64>, b: Seq<i64>) -> bool {
    forall|k: int| 0 <= k < common_len(a, b) ==> i64::MIN <= #[trigger] a[k] + b[k] <= i64::MAX
}

/// Every entry of `lattice_sub(a, b)` fits in an `i64`.
pub open spec fn sub_fits(a: Seq<i64>, b: Seq<i64>) -> bool {
    forall|k: int| 0 <= k < common_len(a, b) ==> i64::MIN <= #[trigger] a[k] - b[k] <= i64::MAX
}

/// A point of the integer lattice (an exponent vector).
#[derive(Debug, Clone, PartialEq, Eq, Hash)]
pub struct LatticePoint {
    pub coords: Vec<i64>,
}

impl View for LatticePoint {
    type V = Seq<i64>;

    open spec fn view(&self) -> Seq<i64> {
        self.coords@
    }
}

impl LatticePoint {
    /// The point with the given coordinates.
    pub fn new(coords: Vec<i64>) -> (p: Self)
        ensures
            p@ == coords@,
    {
        LatticePoint { coords }
    }

    /// Number of coordinates.
    pub fn dim(&self) -> (d: usize)
        ensures
            d == self@.len(),
    {
        self.coords.len()
    }

    /// Dot product over the common coordinates.
    pub fn dot(&self, other: &LatticePoint) -> (r: i64)
        requires
            dot_fits(self@, other@),
        ensures
            r == dot_spec(self@, other@),
    {
        let n = if self.coords.len() <= other.coords.len() { self.coords.len() } else { other.coords.len() };
        let mut sum: i64 = 0;
        let mut k: usize = 0;
        while k < n
            invariant
                n == common_len(self@, other@),
                n <= self@.len(),
                n <= other@.len(),
                dot_fits(self@, other@),
                k <= n,
                sum == dot_prefix(self@, other@, k as int),
            decreases n - k,
        {
            assert(i64::MIN <= dot_prefix(self@, other@, k + 1) <= i64::MAX);
            let prod = self.coords[k] * other.coords[k];
            sum = sum + prod;
            k += 1;
        }
        sum
    }

    /// Coordinatewise difference over the common coordinates.
    pub fn sub(&self, other: &LatticePoint) -> (r: LatticePoint)
        requires
            sub_fits(self@, other@),
        ensures
            int_coords(r@) == lattice_sub(self@, other@),
    {
        let n = if self.coords.len() <= other.coords.len() { self.coords.len() } else { other.coords.len() };
        let mut coords: Vec<i64> = Vec::new();
        let mut k: usize = 0;
        while k < n
            invariant
                n == common_len(self@, other@),
                n <= self@.len(),
                n <= other@.len(),
                sub_fits(self@, other@),
                k <= n,
                coords.len() == k,
                forall|x: int| 0 <= x < k ==> coords@[x] == self@[x] - other@[x],
            decreases n - k,
        {
            coords.push(self.coords[k] - other.coords[k]);
            k += 1;
        }
        assert(int_coords(coords@) =~= lattice_sub(self@, other@));
        LatticePoint::new(coords)
    }

    /// Coordinatewise sum over the common coordinates.
    pub fn add(&self, other: &LatticePoint) -> (r: LatticePoint)
        requires
            add_fits(self@, other@),
        ensures
            int_coords(r@) == lattice_add(self@, other@),
    {
        let n = if self.coords.len() <= other.coords.len() { self.coords.len() } else { other.coords.len() };
        let mut coords: Vec<i64> = Vec::new();
        let mut k: usize = 0;
        while k < n
            invariant
                n == common_len(self@, other@),
                n <= self@.len(),
                n <= other@.len(),
                add_fits(self@, other@),
                k <= n,
                coords.len() == k,
                forall|x: int| 0 <= x < k ==> coords@[x] == self@[x] + other@[x],
            decreases n - k,
        {
            coords.push(self.coords[k] + other.coords[k]);
            k += 1;
        }
        assert(int_coords(coords@) =~= lattice_add(self@, other@));
        LatticePoint::new(coords)
    }
}

/// The row `i` of the list of vertex pairs: `(i, i+1), ..., (i, n-1)`.
pub open spec fn pairs_row(i: int, n: int) -> Seq<(usize, usize)> {
    Seq::new(if i + 1 < n { (n - i - 1) as nat } else { 0 }, |t: int| (i as usize, (i + 1 + t) as usize))
}

/// The rows `0..i` of the list of vertex pairs, in order.
pub open spec fn pairs_upto(i: int, n: int) -> Seq<(usize, usize)>
    decreases i,
{
    if i <= 0 {
        seq![]
    } else {
        pairs_upto(i - 1, n) + pairs_row(i - 1, n)
    }
}

/// All pairs `(i, j)` with `i < j < n`, ordered by `i` and then by `j`.
pub open spec fn vertex_pairs(n: int) -> Seq<(usize, usize)> {
    pairs_upto(n, n)
}

/// Coordinate `i` of `p` lies between the smallest and the largest `i`-th
/// coordinate of the vertices.
pub open spec fn coord_in_range(vs: Seq<LatticePoint>, p: Seq<i64>, i: int) -> bool {
    &&& exists|j: int| 0 <= j < vs.len() && #[trigger] vs[j]@[i] <= p[i]
    &&& exists|j: int| 0 <= j < vs.len() && #[trigger] vs[j]@[i] >= p[i]
}

/// The coordinates of `p` before `i` lie in the bounding box of the
/// vertices.
pub open spec fn coords_before_in_range(vs: Seq<LatticePoint>, p: Seq<i64>, i: int) -> bool {
    forall|x: int| 0 <= x < i ==> #[trigger] coord_in_range(vs, p, x)
}

/// Every coordinate of `p` lies between the smallest and the largest
/// corresponding coordinate of the vertices.
pub open spec fn in_bounding_box(vs: Seq<LatticePoint>, p: Seq<i64>) -> bool {
    forall|i: int| 0 <= i < p.len() ==> #[trigger] coord_in_range(vs, p, i)
}

/// The position `i * m + j` of the sum of vertex `i` of the first polytope
/// and vertex `j` of the second (which has `m` vertices) among the vertices
/// of their Minkowski sum.
pub open spec fn minkowski_index(i: int, j: int, m: int) -> int {
    i * m + j
}

/// The differences `v_j - v_0` of the vertices after the first to the first.
pub open spec fn difference_rows(vs: Seq<LatticePoint>) -> Seq<Seq<int>> {
    Seq::new((vs.len() - 1) as nat, |j: int| lattice_sub(vs[j + 1]@, vs[0]@))
}

/// A convex hull of lattice points (a Newton polytope).
#[derive(Debug, Clone)]
pub struct NewtonPolytope {
    /// Vertices of the polytope.
    pub vertices: Vec<LatticePoint>,
    /// Dimension of the ambient lattice.
    pub dim: usize,
}

impl NewtonPolytope {
    /// The Newton polytope of a tropical polynomial: one vertex per
    /// monomial, its exponent vector; the dimension is the number of
    /// variables.
    pub fn from_polynomial<C>(poly: &TropicalPolynomial<C>) -> (np: NewtonPolytope)
        ensures
            np.dim == poly.num_vars,
            np.vertices.len() == poly.monomials.len(),
            forall|i: int|
                0 <= i < poly.monomials.len() ==> int_coords(#[trigger] np.vertices@[i]@)
                    == poly.monomials@[i].degree@.map_values(|d: u32| d as int),
    {
        let mut vertices: Vec<LatticePoint> = Vec::new();
        let mut i: usize = 0;
        while i < poly.monomials.len()
            invariant
                i <= poly.monomials.len(),
                vertices.len() == i,
                forall|x: int|
                    0 <= x < i ==> int_coords(#[trigger] vertices@[x]@)
                        == poly.monomials@[x].degree@.map_values(|d: u32| d as int),
            decreases poly.monomials.len() - i,
        {
            let degree = &poly.monomials[i].degree;
            let mut coords: Vec<i64> = Vec::new();
            let mut k: usize = 0;
            while k < degree.len()
                invariant
                    k <= degree.len(),
                    coords.len() == k,
                    forall|x: int| 0 <= x < k ==> coords@[x] == degree@[x],
                decreases degree.len() - k,
            {
                coords.push(degree[k] as i64);
                k += 1;
            }
            let p = LatticePoint::new(coords);
            assert(int_coords(p@) =~= degree@.map_values(|d: u32| d as int));
            vertices.push(p);
            i += 1;
        }
        NewtonPolytope { vertices, dim: poly.num_vars }
    }

    /// Number of vertices.
    pub fn num_vertices(&self) -> (n: usize)
        ensures
            n == self.vertices.len(),
    {
        self.vertices.len()
    }

    /// The affine dimension: 0 for at most one vertex, otherwise the rank
    /// over the rationals of the differences of the vertices to the first,
    /// read in the coordinates of the first difference (no difference is
    /// shorter than the first).
    pub fn dimension(&self) -> (d: usize)
        requires
            self.vertices.len() >= 2 ==> {
                &&& forall|j: int| 1 <= j < self.vertices.len() ==> sub_fits(#[trigger] self.vertices@[j]@, self.vertices@[0]@)
                &&& forall|j: int|
                    1 <= j < self.vertices.len() ==> common_len(#[trigger] self.vertices@[j]@, self.vertices@[0]@)
                        >= common_len(self.vertices@[1]@, self.vertices@[0]@)
            },
        ensures
            self.vertices.len() <= 1 ==> d == 0,
            self.vertices.len() >= 2 ==> d == rank_spec(
                difference_rows(self.vertices@),
                common_len(self.vertices@[1]@, self.vertices@[0]@),
            ),
            self.vertices.len() >= 2 ==> d < self.vertices.len() && d <= common_len(
                self.vertices@[1]@,
                self.vertices@[0]@,
            ),
    {
        if self.vertices.len() <= 1 {
            return 0;
        }
        let base = &self.vertices[0];
        let mut diffs: Vec<Vec<i64>> = Vec::new();
        let mut j: usize = 1;
        while j < self.vertices.len()
            invariant
                1 <= j <= self.vertices.len(),
                *base == self.vertices@[0],
                forall|t: int| 1 <= t < self.vertices.len() ==> sub_fits(#[trigger] self.vertices@[t]@, self.vertices@[0]@),
                diffs.len() == j - 1,
                forall|t: int| 0 <= t < j - 1 ==> int_coords(#[trigger] diffs@[t]@) == lattice_sub(self.vertices@[t + 1]@, self.vertices@[0]@),
            decreases self.vertices.len() - j,
        {
            let diff = self.vertices[j].sub(base);
            diffs.push(diff.coords);
            j += 1;
        }
        let ghost dr = difference_rows(self.vertices@);
        assert(int_rows(diffs@) =~= dr) by {
            assert forall|t: int| 0 <= t < dr.len() implies #[trigger] int_rows(diffs@)[t] =~= dr[t] by {
                assert(int_coords(diffs@[t]@) == dr[t]);
            }
        }
        assert forall|t: int| 0 <= t < diffs@.len() implies (#[trigger] diffs@[t]).len() >= diffs@[0].len() by {
            assert(int_coords(diffs@[t]@).len() == diffs@[t].len());
            assert(int_coords(diffs@[0]@).len() == diffs@[0].len());
        }
        assert(diffs@[0].len() == common_len(self.vertices@[1]@, self.vertices@[0]@)) by {
            assert(int_coords(diffs@[0]@).len() == diffs@[0].len());
        }
        rank_of_vectors(diffs.as_slice())
    }

    /// Bounding-box containment: `true` when there is a vertex and every
    /// coordinate of `point` lies between the smallest and the largest
    /// corresponding vertex coordinate.
    pub fn contains(&self, point: &LatticePoint) -> (r: bool)
        requires
            forall|i: int|
                0 <= i < point@.len() && #[trigger] coords_before_in_range(self.vertices@, point@, i) ==> forall|j: int|
                    0 <= j < self.vertices.len() ==> (#[trigger] self.vertices@[j])@.len() > i,
        ensures
            r == (self.vertices.len() > 0 && in_bounding_box(self.vertices@, point@)),
    {
        if self.vertices.len() == 0 {
            return false;
        }
        let vs = &self.vertices;
        let mut i: usize = 0;
        while i < point.dim()
            invariant
                vs@ == self.vertices@,
                vs.len() > 0,
                forall|ii: int|
                    0 <= ii < point@.len() && #[trigger] coords_before_in_range(vs@, point@, ii) ==> forall|j: int|
                        0 <= j < vs.len() ==> (#[trigger] vs@[j])@.len() > ii,
                i <= point@.len(),
                forall|x: int| 0 <= x < i ==> #[trigger] coord_in_range(vs@, point@, x),
            decreases point@.len() - i,
        {
            assert(coords_before_in_range(vs@, point@, i as int));
            let mut min_coord = vs[0].coords[i];
            let mut max_coord = vs[0].coords[i];
            let ghost mut min_at: int = 0;
            let ghost mut max_at: int = 0;
            let mut t: usize = 1;
            while t < vs.len()
                invariant
                    1 <= t <= vs.len(),
                    i < point@.len(),
                    forall|j: int| 0 <= j < vs.len() ==> (#[trigger] vs@[j])@.len() > i,
                    0 <= min_at < t,
                    0 <= max_at < t,
                    min_coord == vs@[min_at]@[i as int],
                    max_coord == vs@[max_at]@[i as int],
                    forall|j: int| 0 <= j < t ==> min_coord <= #[trigger] vs@[j]@[i as int] <= max_coord,
                decreases vs.len() - t,
            {
                let c = vs[t].coords[i];
                if c < min_coord {
                    min_coord = c;
                    proof {
                        min_at = t as int;
                    }
                }
                if c > max_coord {
                    max_coord = c;
                    proof {
                        max_at = t as int;
                    }
                }
                t += 1;
            }
            if point.coords[i] < min_coord || point.coords[i] > max_coord {
                assert(!coord_in_range(vs@, point@, i as int)) by {
                    if point@[i as int] < min_coord {
                        assert(!exists|j: int| 0 <= j < vs.len() && #[trigger] vs@[j]@[i as int] <= point@[i as int]);
                    } else {
                        assert(!exists|j: int| 0 <= j < vs.len() && #[trigger] vs@[j]@[i as int] >= point@[i as int]);
                    }
                }
                return false;
            }
            assert(vs@[min_at]@[i as int] <= point@[i as int]);
            assert(vs@[max_at]@[i as int] >= point@[i as int]);
            assert(coord_in_range(vs@, point@, i as int));
            i += 1;
        }
        true
    }

    /// All pairs of vertex indices `(i, j)` with `i < j`, ordered by `i` and
    /// then by `j`.
    pub fn edges(&self) -> (e: Vec<(usize, usize)>)
        ensures
            e@ == vertex_pairs(self.vertices.len() as int),
    {
        let n = self.vertices.len();
        let mut edges: Vec<(usize, usize)> = Vec::new();
        let mut i: usize = 0;
        while i < n
            invariant
                i <= n,
                edges@ == pairs_upto(i as int, n as int),
            decreases n - i,
        {
            let ghost before = edges@;
            let mut j: usize = i + 1;
            while j < n
                invariant
                    i < n,
                    i + 1 <= j <= n,
                    edges@ == before + pairs_row(i as int, n as int).take(j - i - 1),
                decreases n - j,
            {
                edges.push((i, j));
                j += 1;
                assert(edges@ =~= before + pairs_row(i as int, n as int).take(j - i - 1));
            }
            assert(pairs_row(i as int, n as int).take(j - i - 1) =~= pairs_row(i as int, n as int));
            i += 1;
        }
        edges
    }

    /// The Minkowski sum: the vertex `a + b` for each vertex `a` of `self`
    /// and, within it, each vertex `b` of `other`; the dimension is the
    /// larger of the two.
    pub fn minkowski_sum(&self, other: &NewtonPolytope) -> (s: NewtonPolytope)
        requires
            forall|i: int, j: int|
                0 <= i < self.vertices.len() && 0 <= j < other.vertices.len() ==> add_fits(
                    #[trigger] self.vertices@[i]@,
                    #[trigger] other.vertices@[j]@,
                ),
        ensures
            s.dim == if self.dim >= other.dim { self.dim } else { other.dim },
            s.vertices.len() == self.vertices.len() * other.vertices.len(),
            forall|i: int, j: int|
                0 <= i < self.vertices.len() && 0 <= j < other.vertices.len() ==> int_coords(
                    #[trigger] s.vertices@[minkowski_index(i, j, other.vertices.len() as int)]@,
                ) == lattice_add(self.vertices@[i]@, other.vertices@[j]@),
    {
        let n = self.vertices.len();
        let m = other.vertices.len();
        let mut vertices: Vec<LatticePoint> = Vec::new();
        let mut i: usize = 0;
        while i < n
            invariant
                n == self.vertices.len(),
                m == other.vertices.len(),
                i <= n,
                vertices.len() == i * m,
                forall|a: int, b: int|
                    0 <= a < self.vertices.len() && 0 <= b < other.vertices.len() ==> add_fits(
                        #[trigger] self.vertices@[a]@,
                        #[trigger] other.vertices@[b]@,
                    ),
                forall|a: int, b: int|
                    0 <= a < i && 0 <= b < m ==> int_coords(#[trigger] vertices@[minkowski_index(a, b, m as int)]@)
                        == lattice_add(self.vertices@[a]@, other.vertices@[b]@),
            decreases n - i,
        {
            let va = &self.vertices[i];
            let mut j: usize = 0;
            while j < m
                invariant
                    n == self.vertices.len(),
                    m == other.vertices.len(),
                    i < n,
                    j <= m,
                    *va == self.vertices@[i as int],
                    vertices.len() == i * m + j,
                    forall|a: int, b: int|
                        0 <= a < self.vertices.len() && 0 <= b < other.vertices.len() ==> add_fits(
                            #[trigger] self.vertices@[a]@,
                            #[trigger] other.vertices@[b]@,
                        ),
                    forall|a: int, b: int|
                        0 <= a < i && 0 <= b < m ==> int_coords(#[trigger] vertices@[minkowski_index(a, b, m as int)]@)
                            == lattice_add(self.vertices@[a]@, other.vertices@[b]@),
                    forall|b: int|
                        0 <= b < j ==> int_coords(#[trigger] vertices@[minkowski_index(i as int, b, m as int)]@)
                            == lattice_add(self.vertices@[i as int]@, other.vertices@[b]@),
                decreases m - j,
            {
                let ghost before = vertices@;
                let sum = va.add(&other.vertices[j]);
                vertices.push(sum);
                proof {
                    assert forall|a: int, b: int| 0 <= a < i && 0 <= b < m implies
                        int_coords(#[trigger] vertices@[minkowski_index(a, b, m as int)]@)
                            == lattice_add(self.vertices@[a]@, other.vertices@[b]@) by {
                        crate::polynomial::lemma_row_index_bound(a, b, i as int, m as int);
                        assert(vertices@[a * m + b] == before[a * m + b]);
                    }
                }
                j += 1;
            }
            proof {
                assert((i + 1) * m == i * m + m) by (nonlinear_arith);
            }
            i += 1;
        }
        let dim = if self.dim >= other.dim { self.dim } else { other.dim };
        NewtonPolytope { vertices, dim }
    }
}

/// A polyhedral subdivision induced by a tropical polynomial.
#[derive(Debug, Clone)]
pub struct PolyhedralSubdivision {
    /// Cells of the subdivision, each a list of vertex indices.
    pub cells: Vec<Vec<usize>>,
    /// The Newton polytope.
    pub newton_polytope: NewtonPolytope,
}

/// The cells induced by the coefficients: each monomial forms a cell of its
/// own.
fn compute_subdivision<C>(poly: &TropicalPolynomial<C>) -> (cells: Vec<Vec<usize>>)
    ensures
        cells.len() == poly.monomials.len(),
        forall|i: int| 0 <= i < cells.len() ==> (#[trigger] cells@[i])@ == seq![i as usize],
{
    let n = poly.monomials.len();
    let mut cells: Vec<Vec<usize>> = Vec::new();
    let mut i: usize = 0;
    while i < n
        invariant
            i <= n,
            cells.len() == i,
            forall|x: int| 0 <= x < i ==> (#[trigger] cells@[x])@ == seq![x as usize],
        decreases n - i,
    {
        let mut cell: Vec<usize> = Vec::new();
        cell.push(i);
        assert(cell@ =~= seq![i]);
        cells.push(cell);
        i += 1;
    }
    cells
}

impl PolyhedralSubdivision {
    /// The subdivision of the Newton polytope of `poly`: one cell per
    /// monomial.
    pub fn from_polynomial<C>(poly: &TropicalPolynomial<C>) -> (s: PolyhedralSubdivision)
        ensures
            s.cells.len() == poly.monomials.len(),
            forall|i: int| 0 <= i < s.cells.len() ==> (#[trigger] s.cells@[i])@ == seq![i as usize],
            s.newton_polytope.dim == poly.num_vars,
            s.newton_polytope.vertices.len() == poly.monomials.len(),
            forall|i: int|
                0 <= i < poly.monomials.len() ==> int_coords(#[trigger] s.newton_polytope.vertices@[i]@)
                    == poly.monomials@[i].degree@.map_values(|d: u32| d as int),
    {
        let newton_polytope = NewtonPolytope::from_polynomial(poly);
        let cells = compute_subdivision(poly);
        PolyhedralSubdivision { cells, newton_polytope }
    }

    /// Number of cells.
    pub fn num_cells(&self) -> (n: usize)
        ensures
            n == self.cells.len(),
    {
        self.cells.len()
    }
}

/// The tropical hypersurface: the corner locus of a tropical polynomial.
#[derive(Debug, Clone)]
pub struct TropicalHypersurface<C> {
    /// The defining polynomial.
    pub polynomial: TropicalPolynomial<C>,
}

impl<C> TropicalHypersurface<C> {
    /// The hypersurface defined by `poly`.
    pub fn new(poly: TropicalPolynomial<C>) -> (h: Self)
        ensures
            h.polynomial == poly,
    {
        TropicalHypersurface { polynomial: poly }
    }

    /// The Newton polytope of the defining polynomial.
    pub fn newton_polytope(&self) -> (np: NewtonPolytope)
        ensures
            np.dim == self.polynomial.num_vars,
            np.vertices.len() == self.polynomial.monomials.len(),
            forall|i: int|
                0 <= i < self.polynomial.monomials.len() ==> int_coords(#[trigger] np.vertices@[i]@)
                    == self.polynomial.monomials@[i].degree@.map_values(|d: u32| d as int),
    {
        NewtonPolytope::from_polynomial(&self.polynomial)
    }
}

} // verus!

verus! {

/// The dot product is symmetric: `a · b == b · a`.
pub proof fn lemma_dot_symmetric(a: Seq<i64>, b: Seq<i64>)
    ensures
        dot_spec(a, b) == dot_spec(b, a),
{
    lemma_dot_prefix_symmetric(a, b, common_len(a, b));
}

proof fn lemma_dot_prefix_symmetric(a: Seq<i64>, b: Seq<i64>, n: int)
    ensures
        dot_prefix(a, b, n) == dot_prefix(b, a, n),
    decreases n,
{
    if n > 0 {
        lemma_dot_prefix_symmetric(a, b, n - 1);
        vstd::arithmetic::mul::lemma_mul_is_commutative(a[n - 1] as int, b[n - 1] as int);
    }
}

/// Lattice addition is commutative: `a + b == b + a`.
pub proof fn lemma_add_commutative(a: Seq<i64>, b: Seq<i64>)
    ensures
        lattice_add(a, b) == lattice_add(b, a),
{
    assert(lattice_add(a, b) =~= lattice_add(b, a));
}

/// Subtracting `b` and adding it back gives the point again: when `a` and
/// `b` have the same dimension and `d == a - b`, then `d + b == a`.
pub proof fn lemma_sub_then_add(a: Seq<i64>, b: Seq<i64>, d: Seq<i64>)
    requires
        a.len() == b.len(),
        int_coords(d) == lattice_sub(a, b),
    ensures
        lattice_add(d, b) == int_coords(a),
{
    assert(d.len() == a.len()) by {
        assert(int_coords(d).len() == d.len());
    }
    assert forall|k: int| 0 <= k < a.len() implies #[trigger] lattice_add(d, b)[k] == int_coords(a)[k] by {
        assert(int_coords(d)[k] == d[k]);
    }
    assert(lattice_add(d, b) =~= int_coords(a));
}

/// The edge list of a polytope with `n` vertices holds the pair `(i, j)`
/// exactly when `i < j < n`, and has `n * (n - 1) / 2` entries.
pub proof fn lemma_vertex_pairs(n: int)
    requires
        0 <= n <= usize::MAX,
    ensures
        forall|i: usize, j: usize| vertex_pairs(n).contains((i, j)) <==> i < j < n,
        2 * vertex_pairs(n).len() == n * (n - 1),
{
    lemma_pairs_upto(n, n);
}

#[verifier::spinoff_prover]
#[verifier::rlimit(40)]
proof fn lemma_pairs_upto(i: int, n: int)
    requires
        0 <= i <= n <= usize::MAX,
    ensures
        forall|a: usize, b: usize| pairs_upto(i, n).contains((a, b)) <==> (a < i && a < b < n),
        2 * pairs_upto(i, n).len() == i * (2 * n - i - 1),
    decreases i,
{
    if i > 0 {
        lemma_pairs_upto(i - 1, n);
        let prev = pairs_upto(i - 1, n);
        let row = pairs_row(i - 1, n);
        assert forall|a: usize, b: usize| pairs_upto(i, n).contains((a, b)) <==> (a < i && a < b < n) by {
            if pairs_upto(i, n).contains((a, b)) {
                let k = choose|k: int| 0 <= k < pairs_upto(i, n).len() && pairs_upto(i, n)[k] == (a, b);
                if k >= prev.len() {
                    assert(row[k - prev.len()] == (a, b));
                } else {
                    assert(prev[k] == (a, b));
                    assert(prev.contains((a, b)));
                }
            }
            if a < i && a < b < n {
                if a < i - 1 {
                    assert(prev.contains((a, b)));
                    let k = choose|k: int| 0 <= k < prev.len() && prev[k] == (a, b);
                    assert(pairs_upto(i, n)[k] == (a, b));
                } else {
                    let t = b - (i - 1) - 1;
                    assert(row[t] == (a, b));
                    assert(pairs_upto(i, n)[prev.len() + t] == (a, b));
                }
            }
        }
        assert(2 * pairs_upto(i, n).len() == i * (2 * n - i - 1)) by (nonlinear_arith)
            requires
                2 * prev.len() == (i - 1) * (2 * n - (i - 1) - 1),
                pairs_upto(i, n).len() == prev.len() + row.len(),
                row.len() == n - i,
                i <= n,
        ;
    }
}

/// Every vertex of a polytope lies in its bounding box: `contains` holds of
/// each vertex when no vertex has fewer coordinates than it.
pub proof fn lemma_vertex_in_bounding_box(vs: Seq<LatticePoint>, j: int)
    requires
        0 <= j < vs.len(),
        forall|t: int| 0 <= t < vs.len() ==> (#[trigger] vs[t])@.len() >= vs[j]@.len(),
    ensures
        vs.len() > 0 && in_bounding_box(vs, vs[j]@),
{
    assert forall|i: int| 0 <= i < vs[j]@.len() implies #[trigger] coord_in_range(vs, vs[j]@, i) by {
        let p = vs[j]@;
        assert(vs[j]@[i] <= p[i]);
        assert(exists|t: int| 0 <= t < vs.len() && #[trigger] vs[t]@[i] <= p[i]);
        assert(exists|t: int| 0 <= t < vs.len() && #[trigger] vs[t]@[i] >= p[i]);
    }
}

/// The exponent vector of a product of two monomials in the same variables
/// is the sum of their exponent vectors: the Newton polytope of a product of
/// tropical polynomials is the Minkowski sum of their Newton polytopes.
pub proof fn lemma_product_exponents_are_minkowski_sum(a: Seq<u32>, b: Seq<u32>)
    requires
        a.len() == b.len(),
    ensures
        crate::polynomial::combined_degree(a, b) == lattice_add(
            a.map_values(|d: u32| d as i64),
            b.map_values(|d: u32| d as i64),
        ),
{
    let ai = a.map_values(|d: u32| d as i64);
    let bi = b.map_values(|d: u32| d as i64);
    assert(crate::polynomial::combined_degree(a, b) =~= lattice_add(ai, bi));
}

/// The rows whose rank gives the dimension are the coordinatewise
/// differences `v_j - v_0`: there is one per vertex after the first, it has
/// the coordinates that `v_j` and `v_0` share, and adding `v_0` back gives
/// `v_j`.
pub proof fn lemma_difference_rows_recover_vertices(vs: Seq<LatticePoint>, j: int)
    requires
        1 <= j < vs.len(),
    ensures
        difference_rows(vs).len() == vs.len() - 1,
        difference_rows(vs)[j - 1].len() == common_len(vs[j]@, vs[0]@),
        forall|k: int| 0 <= k < common_len(vs[j]@, vs[0]@) ==> #[trigger] difference_rows(vs)[j - 1][k] + vs[0]@[k] == vs[j]@[k],
{
}

/// A point with a coordinate strictly below every vertex's corresponding
/// coordinate, or strictly above every one, lies outside the bounding box,
/// whatever the value of that coordinate.
pub proof fn lemma_outside_box_not_contained(vs: Seq<LatticePoint>, p: Seq<i64>, i: int)
    requires
        0 <= i < p.len(),
        (forall|j: int| 0 <= j < vs.len() ==> p[i] < #[trigger] vs[j]@[i]) || (forall|j: int|
            0 <= j < vs.len() ==> p[i] > #[trigger] vs[j]@[i]),
    ensures
        !in_bounding_box(vs, p),
{
    assert(!coord_in_range(vs, p, i));
}

/// Coordinate `i` of a point is within the bounding box exactly when it is
/// at least some vertex's coordinate `i` and at most some vertex's
/// coordinate `i`.
pub proof fn lemma_coord_in_range_is_between(vs: Seq<LatticePoint>, p: Seq<i64>, i: int)
    ensures
        coord_in_range(vs, p, i) <==> (exists|j: int| 0 <= j < vs.len() && #[trigger] vs[j]@[i] <= p[i]) && (exists|j: int|
            0 <= j < vs.len() && #[trigger] vs[j]@[i] >= p[i]),
{
}

/// A point each of whose coordinates lies between the smallest and the
/// largest corresponding vertex coordinate is in the bounding box.
pub proof fn lemma_between_is_contained(vs: Seq<LatticePoint>, p: Seq<i64>, lo: Seq<int>, hi: Seq<int>)
    requires
        lo.len() == p.len(),
        hi.len() == p.len(),
        forall|i: int| 0 <= i < p.len() ==> 0 <= #[trigger] lo[i] < vs.len() && vs[lo[i]]@[i] <= p[i],
        forall|i: int| 0 <= i < p.len() ==> 0 <= #[trigger] hi[i] < vs.len() && vs[hi[i]]@[i] >= p[i],
    ensures
        in_bounding_box(vs, p),
{
    assert forall|i: int| 0 <= i < p.len() implies #[trigger] coord_in_range(vs, p, i) by {
        let (a, b) = (lo[i], hi[i]);
        assert(vs[a]@[i] <= p[i]);
        assert(vs[b]@[i] >= p[i]);
    }
}

/// Adding one coordinate to both vectors adds the product of the new
/// coordinates to the dot product; without coordinates it is zero.
pub proof fn lemma_dot_of_extension(a: Seq<i64>, b: Seq<i64>, x: i64, y: i64)
    requires
        a.len() == b.len(),
    ensures
        dot_spec(Seq::<i64>::empty(), Seq::<i64>::empty()) == 0,
        dot_spec(a.push(x), b.push(y)) == dot_spec(a, b) + x * y,
{
    lemma_dot_prefix_of_push(a, b, x, y, a.len() as int);
}

proof fn lemma_dot_prefix_of_push(a: Seq<i64>, b: Seq<i64>, x: i64, y: i64, n: int)
    requires
        0 <= n <= a.len(),
        a.len() == b.len(),
    ensures
        dot_prefix(a.push(x), b.push(y), n) == dot_prefix(a, b, n),
    decreases n,
{
    if n > 0 {
        lemma_dot_prefix_of_push(a, b, x, y, n - 1);
        assert(a.push(x)[n - 1] == a[n - 1]);
        assert(b.push(y)[n - 1] == b[n - 1]);
    }
}

/// Lattice sums and differences act coordinate by coordinate on the
/// coordinates the two points share.
pub proof fn lemma_lattice_ops_coordinatewise(a: Seq<i64>, b: Seq<i64>, k: int)
    requires
        0 <= k < a.len(),
        0 <= k < b.len(),
    ensures
        lattice_add(a, b).len() == lattice_sub(a, b).len(),
        lattice_add(a, b).len() == if a.len() <= b.len() { a.len() } else { b.len() },
        lattice_add(a, b)[k] == a[k] + b[k],
        lattice_sub(a, b)[k] == a[k] - b[k],
        lattice_sub(a, b)[k] + b[k] == a[k],
{
}

} // verus!
