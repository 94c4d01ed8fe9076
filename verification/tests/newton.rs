use lau_tropical_geometry_agents::newton::{LatticePoint, NewtonPolytope, PolyhedralSubdivision, TropicalHypersurface};
use lau_tropical_geometry_agents::polynomial::TropicalPolynomial;
use lau_tropical_geometry_agents::rank::rank_of_vectors;

#[test]
fn test_newton_polytope_from_poly() {
    let p = TropicalPolynomial::univariate(vec![(0.0, 0), (1.0, 1), (2.0, 2)]);
    let np = NewtonPolytope::from_polynomial(&p);
    assert_eq!(np.num_vertices(), 3);
}

#[test]
fn test_lattice_point_dot() {
    let a = LatticePoint::new(vec![1, 2, 3]);
    let b = LatticePoint::new(vec![4, 5, 6]);
    assert_eq!(a.dot(&b), 32); // 4+10+18
}

#[test]
fn test_lattice_point_sub() {
    let a = LatticePoint::new(vec![5, 3]);
    let b = LatticePoint::new(vec![2, 1]);
    let c = a.sub(&b);
    assert_eq!(c.coords, vec![3, 2]);
}

#[test]
fn test_newton_polytope_contains() {
    let p = TropicalPolynomial::univariate(vec![(0.0, 0), (0.0, 3)]);
    let np = NewtonPolytope::from_polynomial(&p);
    assert!(np.contains(&LatticePoint::new(vec![1])));
    assert!(np.contains(&LatticePoint::new(vec![2])));
    assert!(!np.contains(&LatticePoint::new(vec![5])));
}

#[test]
fn newton_test_minkowski_sum() {
    let np1 = NewtonPolytope {
        vertices: vec![LatticePoint::new(vec![0]), LatticePoint::new(vec![1])],
        dim: 1,
    };
    let np2 = NewtonPolytope {
        vertices: vec![LatticePoint::new(vec![0]), LatticePoint::new(vec![1])],
        dim: 1,
    };
    let sum = np1.minkowski_sum(&np2);
    assert_eq!(sum.vertices.len(), 4);
}

#[test]
fn test_polyhedral_subdivision() {
    let p = TropicalPolynomial::univariate(vec![(0.0, 0), (1.0, 1)]);
    let sub = PolyhedralSubdivision::from_polynomial(&p);
    assert_eq!(sub.num_cells(), 2);
}

#[test]
fn test_hypersurface_newton() {
    let p = TropicalPolynomial::univariate(vec![(0.0, 0), (1.0, 1)]);
    let hs = TropicalHypersurface::new(p.clone());
    let np = hs.newton_polytope();
    assert_eq!(np.num_vertices(), 2);
}

#[test]
fn lattice_point_new_and_dim() {
    let p = LatticePoint::new(vec![7, -3, 0]);
    assert_eq!(p.dim(), 3);
    assert_eq!(p.coords, vec![7, -3, 0]);
    assert_eq!(LatticePoint::new(vec![]).dim(), 0);
}

#[test]
fn lattice_point_add_exact() {
    let a = LatticePoint::new(vec![1, -2, 3]);
    let b = LatticePoint::new(vec![10, 20, 30]);
    assert_eq!(a.add(&b).coords, vec![11, 18, 33]);
    // Commutative.
    assert_eq!(a.add(&b), b.add(&a));
}

#[test]
fn lattice_point_ops_use_common_coordinates() {
    let a = LatticePoint::new(vec![1, 2, 3]);
    let b = LatticePoint::new(vec![10, 20]);
    assert_eq!(a.add(&b).coords, vec![11, 22]);
    assert_eq!(a.sub(&b).coords, vec![-9, -18]);
    assert_eq!(a.dot(&b), 50);
    assert_eq!(a.dot(&LatticePoint::new(vec![])), 0);
}

#[test]
fn lattice_point_sub_then_add_restores() {
    let a = LatticePoint::new(vec![4, -7, 9]);
    let b = LatticePoint::new(vec![-1, 2, 5]);
    assert_eq!(a.sub(&b).add(&b), a);
}

#[test]
fn lattice_point_dot_symmetric() {
    let a = LatticePoint::new(vec![3, -1, 4]);
    let b = LatticePoint::new(vec![2, 7, -5]);
    assert_eq!(a.dot(&b), b.dot(&a));
    assert_eq!(a.dot(&b), 6 - 7 - 20);
}

#[test]
fn newton_polytope_from_bivariate_exponents() {
    let p = TropicalPolynomial::bivariate(vec![(0.0, 0, 0), (1.0, 2, 1), (5.0, 0, 3)]);
    let np = NewtonPolytope::from_polynomial(&p);
    assert_eq!(np.dim, 2);
    assert_eq!(np.vertices[0].coords, vec![0, 0]);
    assert_eq!(np.vertices[1].coords, vec![2, 1]);
    assert_eq!(np.vertices[2].coords, vec![0, 3]);
}

#[test]
fn newton_polytope_contains_edge_cases() {
    let empty = NewtonPolytope { vertices: vec![], dim: 1 };
    assert!(!empty.contains(&LatticePoint::new(vec![0])));
    let np = NewtonPolytope {
        vertices: vec![LatticePoint::new(vec![0, 4]), LatticePoint::new(vec![3, 1])],
        dim: 2,
    };
    // The bounding box [0, 3] x [1, 4].
    assert!(np.contains(&LatticePoint::new(vec![0, 1])));
    assert!(np.contains(&LatticePoint::new(vec![3, 4])));
    assert!(!np.contains(&LatticePoint::new(vec![-1, 2])));
    assert!(!np.contains(&LatticePoint::new(vec![2, 5])));
    // A point without coordinates lies in any non-empty polytope.
    assert!(np.contains(&LatticePoint::new(vec![])));
    // Every vertex is contained.
    for v in &np.vertices {
        assert!(np.contains(v));
    }
}

#[test]
fn newton_polytope_edges_are_all_pairs() {
    let np = NewtonPolytope {
        vertices: vec![
            LatticePoint::new(vec![0]),
            LatticePoint::new(vec![1]),
            LatticePoint::new(vec![2]),
            LatticePoint::new(vec![3]),
        ],
        dim: 1,
    };
    assert_eq!(np.edges(), vec![(0, 1), (0, 2), (0, 3), (1, 2), (1, 3), (2, 3)]);
    let single = NewtonPolytope { vertices: vec![LatticePoint::new(vec![0])], dim: 1 };
    assert!(single.edges().is_empty());
}

#[test]
fn minkowski_sum_order_and_dimension() {
    let a = NewtonPolytope {
        vertices: vec![LatticePoint::new(vec![0, 0]), LatticePoint::new(vec![1, 0])],
        dim: 2,
    };
    let b = NewtonPolytope {
        vertices: vec![LatticePoint::new(vec![0, 1]), LatticePoint::new(vec![0, 2]), LatticePoint::new(vec![5, 5])],
        dim: 3,
    };
    let s = a.minkowski_sum(&b);
    assert_eq!(s.dim, 3);
    let coords: Vec<Vec<i64>> = s.vertices.iter().map(|v| v.coords.clone()).collect();
    assert_eq!(
        coords,
        vec![vec![0, 1], vec![0, 2], vec![5, 5], vec![1, 1], vec![1, 2], vec![6, 5]]
    );
}

#[test]
fn newton_polytope_of_product_is_minkowski_sum() {
    let p = TropicalPolynomial::bivariate(vec![(0.0, 0, 0), (0.0, 1, 0)]);
    let q = TropicalPolynomial::bivariate(vec![(0.0, 0, 0), (0.0, 0, 1), (0.0, 2, 2)]);
    let np = NewtonPolytope::from_polynomial(&p);
    let nq = NewtonPolytope::from_polynomial(&q);
    let sum = np.minkowski_sum(&nq);
    let mut product_exponents = Vec::new();
    for a in &p.monomials {
        for b in &q.monomials {
            let d: Vec<i64> = a.degree.iter().zip(b.degree.iter()).map(|(x, y)| (*x + *y) as i64).collect();
            product_exponents.push(d);
        }
    }
    let coords: Vec<Vec<i64>> = sum.vertices.iter().map(|v| v.coords.clone()).collect();
    assert_eq!(coords, product_exponents);
}

#[test]
fn polyhedral_subdivision_cells_are_singletons() {
    let p = TropicalPolynomial::bivariate(vec![(0.0, 0, 0), (1.0, 1, 0), (2.0, 0, 1)]);
    let sub = PolyhedralSubdivision::from_polynomial(&p);
    assert_eq!(sub.cells, vec![vec![0], vec![1], vec![2]]);
    assert_eq!(sub.newton_polytope.num_vertices(), 3);
    assert_eq!(sub.newton_polytope.dim, 2);
    let empty: TropicalPolynomial<f64> = TropicalPolynomial::new(vec![], 1);
    assert_eq!(PolyhedralSubdivision::from_polynomial(&empty).num_cells(), 0);
}

#[test]
fn test_newton_polytope_dimension_1d() {
    let p = TropicalPolynomial::univariate(vec![(0.0, 0), (0.0, 1)]);
    let np = NewtonPolytope::from_polynomial(&p);
    assert_eq!(np.dimension(), 1);
}

#[test]
fn test_newton_polytope_dimension_0() {
    let p = TropicalPolynomial::univariate(vec![(0.0, 0)]);
    let np = NewtonPolytope::from_polynomial(&p);
    assert_eq!(np.dimension(), 0);
}

#[test]
fn test_rank_of_vectors() {
    let v = vec![vec![1, 0], vec![0, 1]];
    assert_eq!(rank_of_vectors(&v), 2);
}

#[test]
fn test_rank_of_vectors_dependent() {
    let v = vec![vec![1, 0], vec![2, 0]];
    assert_eq!(rank_of_vectors(&v), 1);
}

#[test]
fn rank_edge_cases() {
    assert_eq!(rank_of_vectors(&[]), 0);
    assert_eq!(rank_of_vectors(&[vec![0, 0, 0]]), 0);
    assert_eq!(rank_of_vectors(&[vec![], vec![]]), 0);
    // Rational dependence: 2 * (1, 2, 3) - (2, 4, 6) = 0, and (1, 1, 1) is new.
    assert_eq!(rank_of_vectors(&[vec![1, 2, 3], vec![2, 4, 6], vec![1, 1, 1]]), 2);
    // (3, 1) = (1, 1) + (2, 0): three vectors spanning the plane.
    assert_eq!(rank_of_vectors(&[vec![1, 1], vec![2, 0], vec![3, 1]]), 2);
    // Only the first row's length counts.
    assert_eq!(rank_of_vectors(&[vec![1], vec![2, 7]]), 1);
    // A pivot found after the pivots before it.
    assert_eq!(rank_of_vectors(&[vec![0, 1, 0], vec![1, 0, 0], vec![1, 1, 5]]), 3);
}

#[test]
fn dimension_of_triangle_and_collinear_points() {
    let triangle = NewtonPolytope {
        vertices: vec![LatticePoint::new(vec![0, 0]), LatticePoint::new(vec![2, 0]), LatticePoint::new(vec![0, 3])],
        dim: 2,
    };
    assert_eq!(triangle.dimension(), 2);
    let line = NewtonPolytope {
        vertices: vec![LatticePoint::new(vec![1, 1]), LatticePoint::new(vec![3, 5]), LatticePoint::new(vec![-1, -3])],
        dim: 2,
    };
    assert_eq!(line.dimension(), 1);
    let empty = NewtonPolytope { vertices: vec![], dim: 2 };
    assert_eq!(empty.dimension(), 0);
}

#[test]
fn rank_of_seven_unit_vectors() {
    // Seven unit vectors in seven coordinates.
    let units: Vec<Vec<i64>> = (0..7).map(|i| (0..7).map(|j| if i == j { 1 } else { 0 }).collect()).collect();
    assert_eq!(rank_of_vectors(&units), 7);
}

#[test]
fn rank_with_entries_beyond_one() {
    assert_eq!(rank_of_vectors(&[vec![2, 0], vec![0, 3]]), 2);
    assert_eq!(rank_of_vectors(&[vec![100, 37], vec![3, 100]]), 2);
}

#[test]
fn rank_of_ten_vectors_in_five_coordinates() {
    // Ten vectors in five coordinates with entries up to 100: the last five
    // are sums of the first five.
    let mut rows: Vec<Vec<i64>> = vec![
        vec![100, -37, 12, 99, -100],
        vec![3, 100, -64, 7, 55],
        vec![-81, 42, 100, -9, 18],
        vec![27, -5, 33, 100, -71],
        vec![60, 88, -13, -42, 100],
    ];
    for i in 0..5 {
        let next: Vec<i64> = rows[i].iter().zip(rows[(i + 1) % 5].iter()).map(|(a, b)| a + b).collect();
        rows.push(next);
    }
    assert_eq!(rank_of_vectors(&rows), 5);
}

#[test]
fn rank_with_extreme_entries() {
    // Entries at the ends of the i64 range.
    let extremes = vec![vec![i64::MAX, i64::MIN], vec![i64::MIN, i64::MAX], vec![i64::MAX, i64::MAX]];
    assert_eq!(rank_of_vectors(&extremes), 2);
    let dependent = vec![vec![i64::MAX, 1], vec![i64::MAX, 1], vec![-i64::MAX, -1]];
    assert_eq!(rank_of_vectors(&dependent), 1);
}

#[test]
fn dimension_in_seven_variables() {
    let mut vertices = vec![LatticePoint::new(vec![0; 7])];
    for i in 0..7 {
        let mut c = vec![0; 7];
        c[i] = 100;
        vertices.push(LatticePoint::new(c));
    }
    let np = NewtonPolytope { vertices, dim: 7 };
    assert_eq!(np.dimension(), 7);
}

#[test]
fn contains_stops_at_the_first_coordinate_out_of_range() {
    // The second vertex has one coordinate; the point's first coordinate
    // already lies outside, so the second is never read.
    let np = NewtonPolytope {
        vertices: vec![LatticePoint::new(vec![0, 0]), LatticePoint::new(vec![1])],
        dim: 2,
    };
    assert!(!np.contains(&LatticePoint::new(vec![5, 0])));
}

#[test]
fn rank_of_a_dense_twenty_by_twenty_matrix() {
    check_dense_full_rank(20);
}

#[test]
fn rank_of_a_dense_forty_by_forty_matrix() {
    check_dense_full_rank(40);
}

fn check_dense_full_rank(n: usize) {
    // M = L * U with L unit lower triangular and U upper triangular with a
    // nonzero diagonal: M is dense and has full rank.
    let l = |i: usize, j: usize| -> i64 {
        if j < i {
            ((i * 7 + j * 3) % 5) as i64 - 2
        } else if i == j {
            1
        } else {
            0
        }
    };
    let u = |i: usize, j: usize| -> i64 {
        if j > i {
            ((i * 5 + j * 11) % 7) as i64 - 3
        } else if i == j {
            (i % 3) as i64 + 1
        } else {
            0
        }
    };
    let mut m: Vec<Vec<i64>> = (0..n).map(|i| (0..n).map(|j| (0..n).map(|t| l(i, t) * u(t, j)).sum()).collect()).collect();
    assert_eq!(rank_of_vectors(&m), n);
    // A sum of two rows adds nothing.
    let extra: Vec<i64> = m[3].iter().zip(m[11].iter()).map(|(a, b)| a + b).collect();
    m.insert(5, extra);
    assert_eq!(rank_of_vectors(&m), n);
}
