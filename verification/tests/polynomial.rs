use lau_tropical_geometry_agents::polynomial::{degree_dominates, TropicalMonomial, TropicalPolynomial};
use lau_tropical_geometry_agents::semiring::TropicalOps;

/// A max-plus number for exercising the coefficient arithmetic.
#[derive(Debug, Clone, Copy, PartialEq)]
struct Tropical(f64);

impl Tropical {
    fn new(v: f64) -> Self {
        Tropical(v)
    }
}

impl TropicalOps for Tropical {
    fn tropical_add(&self, other: &Self) -> Self {
        Tropical(self.0.max(other.0))
    }
    fn tropical_mul(&self, other: &Self) -> Self {
        Tropical(self.0 + other.0)
    }
    fn tropical_zero() -> Self {
        Tropical(f64::NEG_INFINITY)
    }
    fn tropical_one() -> Self {
        Tropical(0.0)
    }
}

fn univariate(terms: Vec<(f64, u32)>) -> TropicalPolynomial<Tropical> {
    TropicalPolynomial::univariate(terms.into_iter().map(|(c, d)| (Tropical::new(c), d)).collect())
}

#[test]
fn test_polynomial_add() {
    let p1 = univariate(vec![(1.0, 0)]);
    let p2 = univariate(vec![(3.0, 0)]);
    let sum = p1.tropical_add(&p2);
    assert_eq!(sum.monomials.len(), 2);
}

#[test]
fn test_polynomial_mul() {
    let p1 = univariate(vec![(1.0, 1)]);
    let p2 = univariate(vec![(2.0, 1)]);
    let product = p1.tropical_mul(&p2);
    assert_eq!(product.monomials.len(), 1);
    // coefficient = 1+2=3, degree = 1+1=2
    assert_eq!(product.monomials[0].coefficient, Tropical::new(3.0));
    assert_eq!(product.monomials[0].degree, vec![2]);
}

#[test]
fn polynomial_test_scalar_mul() {
    let p = univariate(vec![(1.0, 0), (2.0, 1)]);
    let scaled = p.scalar_mul(Tropical::new(5.0));
    assert_eq!(scaled.monomials[0].coefficient, Tropical::new(6.0));
    assert_eq!(scaled.monomials[1].coefficient, Tropical::new(7.0));
}

#[test]
fn test_degree() {
    let p = univariate(vec![(0.0, 0), (0.0, 1), (0.0, 3)]);
    assert_eq!(p.degree(), 3);
}

#[test]
fn monomial_counts() {
    let m = TropicalMonomial::new(Tropical::new(1.5), vec![2, 0, 5]);
    assert_eq!(m.num_vars(), 3);
    assert_eq!(m.total_degree(), 7);
    assert_eq!(m.coefficient, Tropical::new(1.5));
    assert_eq!(TropicalMonomial::new(Tropical::new(0.0), vec![]).total_degree(), 0);
}

#[test]
fn univariate_and_bivariate_layout() {
    let p = univariate(vec![(2.0, 0), (0.0, 1)]);
    assert_eq!(p.num_vars, 1);
    assert_eq!(p.monomials[0].degree, vec![0]);
    assert_eq!(p.monomials[1].degree, vec![1]);
    assert_eq!(p.monomials[0].coefficient, Tropical::new(2.0));
    let q = TropicalPolynomial::bivariate(vec![(Tropical::new(1.0), 2, 3)]);
    assert_eq!(q.num_vars, 2);
    assert_eq!(q.monomials[0].degree, vec![2, 3]);
}

#[test]
fn tropical_add_keeps_order_and_takes_larger_variable_count() {
    let p = univariate(vec![(1.0, 0), (4.0, 2)]);
    let q = TropicalPolynomial::bivariate(vec![(Tropical::new(7.0), 1, 1)]);
    let s = p.tropical_add(&q);
    assert_eq!(s.num_vars, 2);
    let degrees: Vec<Vec<u32>> = s.monomials.iter().map(|m| m.degree.clone()).collect();
    assert_eq!(degrees, vec![vec![0], vec![2], vec![1, 1]]);
    let coefficients: Vec<Tropical> = s.monomials.iter().map(|m| m.coefficient).collect();
    assert_eq!(coefficients, vec![Tropical::new(1.0), Tropical::new(4.0), Tropical::new(7.0)]);
}

#[test]
fn tropical_mul_convolves_in_row_order() {
    // max(0, 1+x) ⊗ max(2, 3+2x)
    let p = univariate(vec![(0.0, 0), (1.0, 1)]);
    let q = univariate(vec![(2.0, 0), (3.0, 2)]);
    let r = p.tropical_mul(&q);
    assert_eq!(r.num_vars, 2);
    let degrees: Vec<Vec<u32>> = r.monomials.iter().map(|m| m.degree.clone()).collect();
    assert_eq!(degrees, vec![vec![0], vec![2], vec![1], vec![3]]);
    let coefficients: Vec<Tropical> = r.monomials.iter().map(|m| m.coefficient).collect();
    assert_eq!(
        coefficients,
        vec![Tropical::new(2.0), Tropical::new(3.0), Tropical::new(3.0), Tropical::new(4.0)]
    );
    // deg(p ⊗ q) = deg p + deg q
    assert_eq!(r.degree(), p.degree() + q.degree());
}

#[test]
fn tropical_mul_extends_shorter_exponent_vectors() {
    let p = univariate(vec![(0.0, 4)]);
    let q = TropicalPolynomial::bivariate(vec![(Tropical::new(0.0), 1, 6)]);
    let r = p.tropical_mul(&q);
    assert_eq!(r.monomials[0].degree, vec![5, 6]);
    let r2 = q.tropical_mul(&p);
    assert_eq!(r2.monomials[0].degree, vec![5, 6]);
}

#[test]
fn degree_of_empty_polynomial_is_zero() {
    let p: TropicalPolynomial<Tropical> = TropicalPolynomial::new(vec![], 3);
    assert_eq!(p.degree(), 0);
    assert_eq!(p.num_vars, 3);
}

#[test]
fn degree_dominance() {
    assert!(degree_dominates(&vec![2, 3], &vec![1, 3]));
    assert!(!degree_dominates(&vec![2, 3], &vec![3, 0]));
    assert!(degree_dominates(&vec![2, 3, 1], &vec![2, 3]));
    assert!(!degree_dominates(&vec![2], &vec![0, 0]));
    assert!(degree_dominates(&vec![], &vec![]));
}

#[test]
fn scalar_mul_keeps_exponents() {
    let p = TropicalPolynomial::bivariate(vec![(Tropical::new(1.0), 2, 0), (Tropical::new(-1.0), 0, 3)]);
    let q = p.scalar_mul(Tropical::new(0.5));
    assert_eq!(q.num_vars, 2);
    assert_eq!(q.monomials[0].degree, vec![2, 0]);
    assert_eq!(q.monomials[1].degree, vec![0, 3]);
    assert_eq!(q.monomials[1].coefficient, Tropical::new(-0.5));
}
