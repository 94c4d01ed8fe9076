//! Tropical polynomials: the maximum of affine functions.
//!
//! A tropical polynomial in `n` variables is `max_k (c_k + d_k · x)`: each
//! monomial has a coefficient `c_k` and an exponent vector `d_k`. The types
//! here are generic in the coefficient type `C`; the exponent structure
//! (degrees, products, sums of polynomials) is exact integer data and is
//! what the contracts describe.
use vstd::prelude::*;
use crate::semiring::TropicalOps;

verus! {

/// The sum of the entries of an exponent vector.
pub open spec fn degree_sum(d: Seq<u32>) -> int
    decreases d.len(),
{
    if d.len() == 0 {
        0
    } else {
        degree_sum(d.drop_last()) + d.last()
    }
}

/// The exponent vector of a product of two monomials: entrywise sum, the
/// shorter vector read as zero beyond its end.
pub open spec fn combined_degree(a: Seq<u32>, b: Seq<u32>) -> Seq<int> {
    Seq::new(
        if a.len() >= b.len() { a.len() } else { b.len() },
        |k: int|
            (if k < a.len() { a[k] as int } else { 0int }) + (if k < b.len() { b[k] as int } else { 0int }),
    )
}

/// Every entry of `combined_degree(a, b)` fits in a `u32`.
pub open spec fn combined_degree_fits(a: Seq<u32>, b: Seq<u32>) -> bool {
    forall|k: int| 0 <= k < combined_degree(a, b).len() ==> #[trigger] combined_degree(a, b)[k] <= u32::MAX
}

/// An exponent vector read as mathematical integers.
pub open spec fn widen(d: Seq<u32>) -> Seq<int> {
    d.map_values(|x: u32| x as int)
}

/// The largest total degree among the monomials, 0 when there are none.
pub open spec fn max_total_degree<C>(ms: Seq<TropicalMonomial<C>>) -> int
    decreases ms.len(),
{
    if ms.len() == 0 {
        0
    } else {
        let rest = max_total_degree(ms.drop_last());
        let last = degree_sum(ms.last().degree@);
        if rest >= last { rest } else { last }
    }
}

/// A monomial of a tropical polynomial: `coefficient + degree · x`.
#[derive(Debug, Clone, PartialEq)]
pub struct TropicalMonomial<C> {
    /// Coefficient in the tropical sense (the constant term).
    pub coefficient: C,
    /// Degree (exponent) of each variable.
    pub degree: Vec<u32>,
}

/// A copy of an exponent vector.
fn copy_degree(d: &Vec<u32>) -> (r: Vec<u32>)
    ensures
        r@ == d@,
{
    let mut r: Vec<u32> = Vec::new();
    let mut i: usize = 0;
    while i < d.len()
        invariant
            i <= d.len(),
            r@ == d@.take(i as int),
        decreases d.len() - i,
    {
        r.push(d[i]);
        i += 1;
        assert(r@ =~= d@.take(i as int));
    }
    assert(d@.take(d.len() as int) =~= d@);
    r
}

/// The exponent vector of the product of monomials with exponents `a` and
/// `b`: the entrywise sum over the common length, then the tail of the longer.
fn combine_degrees(a: &Vec<u32>, b: &Vec<u32>) -> (r: Vec<u32>)
    requires
        combined_degree_fits(a@, b@),
    ensures
        widen(r@) == combined_degree(a@, b@),
{
    let ghost c = combined_degree(a@, b@);
    let common = if a.len() <= b.len() { a.len() } else { b.len() };
    let mut r: Vec<u32> = Vec::new();
    let mut k: usize = 0;
    while k < common
        invariant
            common <= a.len(),
            common <= b.len(),
            common == a.len() || common == b.len(),
            c == combined_degree(a@, b@),
            combined_degree_fits(a@, b@),
            k <= common,
            r.len() == k,
            forall|x: int| 0 <= x < k ==> r@[x] == c[x],
        decreases common - k,
    {
        assert(c[k as int] <= u32::MAX);
        r.push(a[k] + b[k]);
        k += 1;
    }
    let longer = if a.len() >= b.len() { a } else { b };
    while k < longer.len()
        invariant
            common <= k <= longer.len(),
            longer.len() == c.len(),
            longer@ == a@ || longer@ == b@,
            a.len() >= b.len() ==> longer@ == a@,
            a.len() < b.len() ==> longer@ == b@,
            common == a.len() || common == b.len(),
            common <= a.len(),
            common <= b.len(),
            c == combined_degree(a@, b@),
            r.len() == k,
            forall|x: int| 0 <= x < k ==> r@[x] == c[x],
        decreases longer.len() - k,
    {
        r.push(longer[k]);
        k += 1;
    }
    assert(widen(r@) =~= c);
    r
}

/// The exponent part of the dominance test used when simplifying: `a` has
/// at least as many variables as `b` and an exponent at least as large in
/// each of `b`'s variables. (The simplification pairs it with a coefficient
/// comparison; the two together compare monomials at points whose
/// coordinates are nonnegative, not everywhere.)
pub fn degree_dominates(a: &Vec<u32>, b: &Vec<u32>) -> (r: bool)
    ensures
        r == (a.len() >= b.len() && forall|k: int| 0 <= k < b.len() ==> a@[k] >= b@[k]),
{
    let common = if a.len() <= b.len() { a.len() } else { b.len() };
    let mut k: usize = 0;
    while k < common
        invariant
            common <= a.len(),
            common <= b.len(),
            common == a.len() || common == b.len(),
            k <= common,
            forall|x: int| 0 <= x < k ==> a@[x] >= b@[x],
        decreases common - k,
    {
        if a[k] < b[k] {
            return false;
        }
        k += 1;
    }
    if a.len() < b.len() {
        return false;
    }
    true
}

/// The partial sums of an exponent vector never exceed the whole sum.
proof fn lemma_degree_sum_prefix(d: Seq<u32>, i: int)
    requires
        0 <= i <= d.len(),
    ensures
        0 <= degree_sum(d.take(i)) <= degree_sum(d),
    decreases d.len() - i,
{
    if i < d.len() {
        lemma_degree_sum_prefix(d, i + 1);
        assert(d.take(i + 1).drop_last() =~= d.take(i));
    } else {
        assert(d.take(i) =~= d);
    }
    lemma_degree_sum_nonneg(d.take(i));
}

proof fn lemma_degree_sum_nonneg(d: Seq<u32>)
    ensures
        degree_sum(d) >= 0,
    decreases d.len(),
{
    if d.len() > 0 {
        lemma_degree_sum_nonneg(d.drop_last());
    }
}

/// Entries of earlier rows of a row-major `_ x m` layout come before row `i`.
pub(crate) proof fn lemma_row_index_bound(a: int, b: int, i: int, m: int)
    requires
        0 <= a < i,
        0 <= b < m,
    ensures
        0 <= a * m + b < i * m,
{
    assert(0 <= a * m + b < i * m) by (nonlinear_arith)
        requires
            0 <= a < i,
            0 <= b < m,
    ;
}

impl<C> TropicalMonomial<C> {
    /// The monomial `coefficient + degree · x`.
    pub fn new(coefficient: C, degree: Vec<u32>) -> (m: Self)
        ensures
            m.coefficient == coefficient,
            m.degree@ == degree@,
    {
        TropicalMonomial { coefficient, degree }
    }

    /// Number of variables.
    pub fn num_vars(&self) -> (n: usize)
        ensures
            n == self.degree.len(),
    {
        self.degree.len()
    }

    /// Total degree: the sum of the exponents.
    pub fn total_degree(&self) -> (t: u32)
        requires
            degree_sum(self.degree@) <= u32::MAX,
        ensures
            t == degree_sum(self.degree@),
    {
        let mut total: u32 = 0;
        let mut i: usize = 0;
        while i < self.degree.len()
            invariant
                i <= self.degree.len(),
                degree_sum(self.degree@) <= u32::MAX,
                total == degree_sum(self.degree@.take(i as int)),
            decreases self.degree.len() - i,
        {
            proof {
                lemma_degree_sum_prefix(self.degree@, i as int + 1);
                assert(self.degree@.take(i as int + 1).drop_last() =~= self.degree@.take(i as int));
            }
            total = total + self.degree[i];
            i += 1;
        }
        assert(self.degree@.take(i as int) =~= self.degree@);
        total
    }
}

/// A tropical polynomial: the maximum of its monomials.
#[derive(Debug, Clone, PartialEq)]
pub struct TropicalPolynomial<C> {
    /// The monomials.
    pub monomials: Vec<TropicalMonomial<C>>,
    /// Number of variables.
    pub num_vars: usize,
}

impl<C: Copy> TropicalPolynomial<C> {
    /// The polynomial with the given monomials in `num_vars` variables.
    pub fn new(monomials: Vec<TropicalMonomial<C>>, num_vars: usize) -> (p: Self)
        ensures
            p.monomials@ == monomials@,
            p.num_vars == num_vars,
    {
        TropicalPolynomial { monomials, num_vars }
    }

    /// The univariate polynomial with one monomial per `(coefficient, degree)`
    /// pair, in order.
    pub fn univariate(terms: Vec<(C, u32)>) -> (p: Self)
        ensures
            p.num_vars == 1,
            p.monomials.len() == terms.len(),
            forall|i: int|
                0 <= i < terms.len() ==> {
                    &&& (#[trigger] p.monomials@[i]).coefficient == terms@[i].0
                    &&& p.monomials@[i].degree@ == seq![terms@[i].1]
                },
    {
        let mut monomials: Vec<TropicalMonomial<C>> = Vec::new();
        let mut i: usize = 0;
        while i < terms.len()
            invariant
                i <= terms.len(),
                monomials.len() == i,
                forall|k: int|
                    0 <= k < i ==> {
                        &&& (#[trigger] monomials@[k]).coefficient == terms@[k].0
                        &&& monomials@[k].degree@ == seq![terms@[k].1]
                    },
            decreases terms.len() - i,
        {
            let (c, d) = terms[i];
            let mut degree: Vec<u32> = Vec::new();
            degree.push(d);
            monomials.push(TropicalMonomial { coefficient: c, degree });
            i += 1;
        }
        TropicalPolynomial { monomials, num_vars: 1 }
    }

    /// The bivariate polynomial with one monomial per
    /// `(coefficient, degree1, degree2)` triple, in order.
    pub fn bivariate(terms: Vec<(C, u32, u32)>) -> (p: Self)
        ensures
            p.num_vars == 2,
            p.monomials.len() == terms.len(),
            forall|i: int|
                0 <= i < terms.len() ==> {
                    &&& (#[trigger] p.monomials@[i]).coefficient == terms@[i].0
                    &&& p.monomials@[i].degree@ == seq![terms@[i].1, terms@[i].2]
                },
    {
        let mut monomials: Vec<TropicalMonomial<C>> = Vec::new();
        let mut i: usize = 0;
        while i < terms.len()
            invariant
                i <= terms.len(),
                monomials.len() == i,
                forall|k: int|
                    0 <= k < i ==> {
                        &&& (#[trigger] monomials@[k]).coefficient == terms@[k].0
                        &&& monomials@[k].degree@ == seq![terms@[k].1, terms@[k].2]
                    },
            decreases terms.len() - i,
        {
            let (c, d1, d2) = terms[i];
            let mut degree: Vec<u32> = Vec::new();
            degree.push(d1);
            degree.push(d2);
            assert(degree@ =~= seq![d1, d2]);
            monomials.push(TropicalMonomial { coefficient: c, degree });
            i += 1;
        }
        TropicalPolynomial { monomials, num_vars: 2 }
    }

    /// Tropical sum (`max`) of two polynomials: all monomials of `self`
    /// followed by all monomials of `other`.
    pub fn tropical_add(&self, other: &TropicalPolynomial<C>) -> (p: TropicalPolynomial<C>)
        ensures
            p.num_vars == if self.num_vars >= other.num_vars { self.num_vars } else { other.num_vars },
            p.monomials.len() == self.monomials.len() + other.monomials.len(),
            forall|i: int|
                0 <= i < self.monomials.len() ==> {
                    &&& (#[trigger] p.monomials@[i]).coefficient == self.monomials@[i].coefficient
                    &&& p.monomials@[i].degree@ == self.monomials@[i].degree@
                },
            forall|j: int|
                0 <= j < other.monomials.len() ==> {
                    &&& (#[trigger] p.monomials@[self.monomials.len() + j]).coefficient
                        == other.monomials@[j].coefficient
                    &&& p.monomials@[self.monomials.len() + j].degree@ == other.monomials@[j].degree@
                },
    {
        let mut monomials: Vec<TropicalMonomial<C>> = Vec::new();
        let mut i: usize = 0;
        while i < self.monomials.len()
            invariant
                i <= self.monomials.len(),
                monomials.len() == i,
                forall|k: int|
                    0 <= k < i ==> {
                        &&& (#[trigger] monomials@[k]).coefficient == self.monomials@[k].coefficient
                        &&& monomials@[k].degree@ == self.monomials@[k].degree@
                    },
            decreases self.monomials.len() - i,
        {
            let m = &self.monomials[i];
            monomials.push(TropicalMonomial { coefficient: m.coefficient, degree: copy_degree(&m.degree) });
            i += 1;
        }
        let mut j: usize = 0;
        while j < other.monomials.len()
            invariant
                j <= other.monomials.len(),
                monomials.len() == self.monomials.len() + j,
                forall|k: int|
                    0 <= k < self.monomials.len() ==> {
                        &&& (#[trigger] monomials@[k]).coefficient == self.monomials@[k].coefficient
                        &&& monomials@[k].degree@ == self.monomials@[k].degree@
                    },
                forall|k: int|
                    0 <= k < j ==> {
                        &&& (#[trigger] monomials@[self.monomials.len() + k]).coefficient
                            == other.monomials@[k].coefficient
                        &&& monomials@[self.monomials.len() + k].degree@ == other.monomials@[k].degree@
                    },
            decreases other.monomials.len() - j,
        {
            let m = &other.monomials[j];
            monomials.push(TropicalMonomial { coefficient: m.coefficient, degree: copy_degree(&m.degree) });
            j += 1;
        }
        let num_vars = if self.num_vars >= other.num_vars { self.num_vars } else { other.num_vars };
        TropicalPolynomial { monomials, num_vars }
    }

    /// Tropical product of two polynomials: for each monomial `a` of `self`
    /// and, within it, each monomial `b` of `other`, the monomial with
    /// coefficient `a.coefficient ⊗ b.coefficient` and exponents
    /// `a.degree + b.degree`. The number of variables is the sum of the two.
    pub fn tropical_mul(&self, other: &TropicalPolynomial<C>) -> (p: TropicalPolynomial<C>)
        where C: TropicalOps,
        requires
            self.num_vars + other.num_vars <= usize::MAX,
            forall|i: int, j: int|
                0 <= i < self.monomials.len() && 0 <= j < other.monomials.len() ==> combined_degree_fits(
                    #[trigger] self.monomials@[i].degree@,
                    #[trigger] other.monomials@[j].degree@,
                ),
        ensures
            p.num_vars == self.num_vars + other.num_vars,
            p.monomials.len() == self.monomials.len() * other.monomials.len(),
            forall|i: int, j: int|
                0 <= i < self.monomials.len() && 0 <= j < other.monomials.len() ==> widen(
                    #[trigger] p.monomials@[i * other.monomials.len() + j].degree@,
                ) == combined_degree(self.monomials@[i].degree@, other.monomials@[j].degree@),
            forall|i: int, j: int|
                0 <= i < self.monomials.len() && 0 <= j < other.monomials.len() ==> call_ensures(
                    C::tropical_mul,
                    (&self.monomials@[i].coefficient, &other.monomials@[j].coefficient),
                    #[trigger] p.monomials@[i * other.monomials.len() + j].coefficient,
                ),
    {
        let n = self.monomials.len();
        let m = other.monomials.len();
        let mut monomials: Vec<TropicalMonomial<C>> = Vec::new();
        let mut i: usize = 0;
        while i < n
            invariant
                n == self.monomials.len(),
                m == other.monomials.len(),
                i <= n,
                monomials.len() == i * m,
                forall|a: int, b: int|
                    0 <= a < self.monomials.len() && 0 <= b < other.monomials.len() ==> combined_degree_fits(
                        #[trigger] self.monomials@[a].degree@,
                        #[trigger] other.monomials@[b].degree@,
                    ),
                forall|a: int, b: int|
                    0 <= a < i && 0 <= b < m ==> widen(#[trigger] monomials@[a * m + b].degree@)
                        == combined_degree(self.monomials@[a].degree@, other.monomials@[b].degree@),
                forall|a: int, b: int|
                    0 <= a < i && 0 <= b < m ==> call_ensures(
                        C::tropical_mul,
                        (&self.monomials@[a].coefficient, &other.monomials@[b].coefficient),
                        #[trigger] monomials@[a * m + b].coefficient,
                    ),
            decreases n - i,
        {
            let ma = &self.monomials[i];
            let mut j: usize = 0;
            while j < m
                invariant
                    n == self.monomials.len(),
                    m == other.monomials.len(),
                    i < n,
                    j <= m,
                    *ma == self.monomials@[i as int],
                    monomials.len() == i * m + j,
                    forall|a: int, b: int|
                        0 <= a < self.monomials.len() && 0 <= b < other.monomials.len() ==> combined_degree_fits(
                            #[trigger] self.monomials@[a].degree@,
                            #[trigger] other.monomials@[b].degree@,
                        ),
                    forall|a: int, b: int|
                        0 <= a < i && 0 <= b < m ==> widen(#[trigger] monomials@[a * m + b].degree@)
                            == combined_degree(self.monomials@[a].degree@, other.monomials@[b].degree@),
                    forall|b: int|
                        0 <= b < j ==> widen(#[trigger] monomials@[i * m + b].degree@)
                            == combined_degree(self.monomials@[i as int].degree@, other.monomials@[b].degree@),
                    forall|a: int, b: int|
                        0 <= a < i && 0 <= b < m ==> call_ensures(
                            C::tropical_mul,
                            (&self.monomials@[a].coefficient, &other.monomials@[b].coefficient),
                            #[trigger] monomials@[a * m + b].coefficient,
                        ),
                    forall|b: int|
                        0 <= b < j ==> call_ensures(
                            C::tropical_mul,
                            (&self.monomials@[i as int].coefficient, &other.monomials@[b].coefficient),
                            #[trigger] monomials@[i * m + b].coefficient,
                        ),
                decreases m - j,
            {
                let mb = &other.monomials[j];
                let coefficient = ma.coefficient.tropical_mul(&mb.coefficient);
                let degree = combine_degrees(&ma.degree, &mb.degree);
                let ghost before = monomials@;
                monomials.push(TropicalMonomial { coefficient, degree });
                proof {
                    assert forall|a: int, b: int| 0 <= a < i && 0 <= b < m implies
                        widen(#[trigger] monomials@[a * m + b].degree@)
                            == combined_degree(self.monomials@[a].degree@, other.monomials@[b].degree@) by {
                        lemma_row_index_bound(a, b, i as int, m as int);
                        assert(monomials@[a * m + b] == before[a * m + b]);
                    }
                    assert forall|a: int, b: int| 0 <= a < i && 0 <= b < m implies call_ensures(
                        C::tropical_mul,
                        (&self.monomials@[a].coefficient, &other.monomials@[b].coefficient),
                        #[trigger] monomials@[a * m + b].coefficient,
                    ) by {
                        lemma_row_index_bound(a, b, i as int, m as int);
                        assert(monomials@[a * m + b] == before[a * m + b]);
                    }
                }
                j += 1;
            }
            proof {
                assert forall|a: int, b: int| 0 <= a < i + 1 && 0 <= b < m implies
                    widen(#[trigger] monomials@[a * m + b].degree@)
                        == combined_degree(self.monomials@[a].degree@, other.monomials@[b].degree@) by {
                    if a == i {
                    }
                }
                assert forall|a: int, b: int| 0 <= a < i + 1 && 0 <= b < m implies call_ensures(
                    C::tropical_mul,
                    (&self.monomials@[a].coefficient, &other.monomials@[b].coefficient),
                    #[trigger] monomials@[a * m + b].coefficient,
                ) by {
                    if a == i {
                    }
                }
                assert((i + 1) * m == i * m + m) by (nonlinear_arith);
            }
            i += 1;
        }
        TropicalPolynomial { monomials, num_vars: self.num_vars + other.num_vars }
    }

    /// Tropical scalar multiplication: each coefficient `c` becomes
    /// `c ⊗ scalar`; the exponents are kept.
    pub fn scalar_mul(&self, scalar: C) -> (p: TropicalPolynomial<C>)
        where C: TropicalOps,
        ensures
            p.num_vars == self.num_vars,
            p.monomials.len() == self.monomials.len(),
            forall|i: int| 0 <= i < self.monomials.len() ==> (#[trigger] p.monomials@[i]).degree@ == self.monomials@[i].degree@,
            forall|i: int|
                0 <= i < self.monomials.len() ==> call_ensures(
                    C::tropical_mul,
                    (&self.monomials@[i].coefficient, &scalar),
                    #[trigger] p.monomials@[i].coefficient,
                ),
    {
        let mut monomials: Vec<TropicalMonomial<C>> = Vec::new();
        let mut i: usize = 0;
        while i < self.monomials.len()
            invariant
                i <= self.monomials.len(),
                monomials.len() == i,
                forall|k: int| 0 <= k < i ==> (#[trigger] monomials@[k]).degree@ == self.monomials@[k].degree@,
                forall|k: int|
                    0 <= k < i ==> call_ensures(
                        C::tropical_mul,
                        (&self.monomials@[k].coefficient, &scalar),
                        #[trigger] monomials@[k].coefficient,
                    ),
            decreases self.monomials.len() - i,
        {
            let m = &self.monomials[i];
            let coefficient = m.coefficient.tropical_mul(&scalar);
            monomials.push(TropicalMonomial { coefficient, degree: copy_degree(&m.degree) });
            i += 1;
        }
        TropicalPolynomial { monomials, num_vars: self.num_vars }
    }

    /// Degree of the polynomial: the largest total degree of a monomial, 0
    /// for the polynomial without monomials.
    pub fn degree(&self) -> (d: u32)
        requires
            forall|i: int| 0 <= i < self.monomials.len() ==> degree_sum(#[trigger] self.monomials@[i].degree@) <= u32::MAX,
        ensures
            d == max_total_degree(self.monomials@),
    {
        let mut best: u32 = 0;
        let mut i: usize = 0;
        while i < self.monomials.len()
            invariant
                i <= self.monomials.len(),
                forall|k: int| 0 <= k < self.monomials.len() ==> degree_sum(#[trigger] self.monomials@[k].degree@) <= u32::MAX,
                best == max_total_degree(self.monomials@.take(i as int)),
            decreases self.monomials.len() - i,
        {
            let t = self.monomials[i].total_degree();
            assert(self.monomials@.take(i as int + 1).drop_last() =~= self.monomials@.take(i as int));
            if t > best {
                best = t;
            }
            i += 1;
        }
        assert(self.monomials@.take(i as int) =~= self.monomials@);
        best
    }
}

} // verus!

verus! {

/// The sum of a sequence of integers.
pub open spec fn int_sum(s: Seq<int>) -> int
    decreases s.len(),
{
    if s.len() == 0 {
        0
    } else {
        int_sum(s.drop_last()) + s.last()
    }
}

proof fn lemma_int_sum_widen(d: Seq<u32>)
    ensures
        int_sum(widen(d)) == degree_sum(d),
    decreases d.len(),
{
    if d.len() > 0 {
        lemma_int_sum_widen(d.drop_last());
        assert(widen(d).drop_last() =~= widen(d.drop_last()));
    }
}

/// The sum of a pointwise sum is the sum of the sums.
proof fn lemma_int_sum_pointwise(x: Seq<int>, y: Seq<int>, z: Seq<int>)
    requires
        x.len() == y.len() == z.len(),
        forall|k: int| 0 <= k < z.len() ==> z[k] == x[k] + y[k],
    ensures
        int_sum(z) == int_sum(x) + int_sum(y),
    decreases z.len(),
{
    if z.len() > 0 {
        lemma_int_sum_pointwise(x.drop_last(), y.drop_last(), z.drop_last());
    }
}

/// `d` extended with zeros up to length `len` has the same sum.
proof fn lemma_int_sum_padded(d: Seq<u32>, len: int)
    requires
        d.len() <= len,
    ensures
        int_sum(Seq::new(len as nat, |k: int| if k < d.len() { d[k] as int } else { 0int })) == degree_sum(d),
    decreases len,
{
    let padded = Seq::new(len as nat, |k: int| if k < d.len() { d[k] as int } else { 0int });
    if len == d.len() {
        assert(padded =~= widen(d));
        lemma_int_sum_widen(d);
    } else {
        lemma_int_sum_padded(d, len - 1);
        assert(padded.drop_last() =~= Seq::new((len - 1) as nat, |k: int| if k < d.len() { d[k] as int } else { 0int }));
    }
}

/// The total degree of a product of monomials is the sum of their total
/// degrees.
pub proof fn lemma_total_degree_of_product(a: Seq<u32>, b: Seq<u32>)
    ensures
        int_sum(combined_degree(a, b)) == degree_sum(a) + degree_sum(b),
{
    let c = combined_degree(a, b);
    let len = c.len() as int;
    let pa = Seq::new(len as nat, |k: int| if k < a.len() { a[k] as int } else { 0int });
    let pb = Seq::new(len as nat, |k: int| if k < b.len() { b[k] as int } else { 0int });
    lemma_int_sum_padded(a, len);
    lemma_int_sum_padded(b, len);
    lemma_int_sum_pointwise(pa, pb, c);
}

/// `max_total_degree` is an upper bound of the total degrees, is attained
/// when there is a monomial, and is never negative.
proof fn lemma_max_total_degree<C>(ms: Seq<TropicalMonomial<C>>)
    ensures
        max_total_degree(ms) >= 0,
        forall|i: int| 0 <= i < ms.len() ==> degree_sum(#[trigger] ms[i].degree@) <= max_total_degree(ms),
        ms.len() > 0 ==> exists|i: int| 0 <= i < ms.len() && degree_sum(#[trigger] ms[i].degree@) == max_total_degree(ms),
    decreases ms.len(),
{
    if ms.len() > 0 {
        let rest = ms.drop_last();
        lemma_max_total_degree(rest);
        lemma_degree_sum_nonneg(ms.last().degree@);
        assert forall|i: int| 0 <= i < ms.len() implies degree_sum(#[trigger] ms[i].degree@) <= max_total_degree(ms) by {
            if i < rest.len() {
                assert(ms[i] == rest[i]);
            }
        }
        if max_total_degree(rest) >= degree_sum(ms.last().degree@) && rest.len() > 0 {
            let i = choose|i: int| 0 <= i < rest.len() && degree_sum(#[trigger] rest[i].degree@) == max_total_degree(rest);
            assert(ms[i] == rest[i]);
        } else {
            assert(degree_sum(ms[ms.len() - 1].degree@) == max_total_degree(ms));
        }
    }
}

/// The degree of a product of tropical polynomials is the sum of their
/// degrees: when `r` holds, at index `i * m + j`, the product of monomial
/// `i` of `p` and monomial `j` of `q` (as `tropical_mul` builds it), then
/// `deg r == deg p + deg q`, provided both polynomials have a monomial.
pub proof fn lemma_degree_of_product<C>(
    p: Seq<TropicalMonomial<C>>,
    q: Seq<TropicalMonomial<C>>,
    r: Seq<TropicalMonomial<C>>,
)
    requires
        p.len() > 0,
        q.len() > 0,
        r.len() == p.len() * q.len(),
        forall|i: int, j: int|
            0 <= i < p.len() && 0 <= j < q.len() ==> widen(#[trigger] r[i * q.len() + j].degree@)
                == combined_degree(p[i].degree@, q[j].degree@),
    ensures
        max_total_degree(r) == max_total_degree(p) + max_total_degree(q),
{
    let n = p.len() as int;
    let m = q.len() as int;
    lemma_max_total_degree(p);
    lemma_max_total_degree(q);
    lemma_max_total_degree(r);
    assert forall|k: int| 0 <= k < r.len() implies degree_sum(#[trigger] r[k].degree@) <= max_total_degree(p)
        + max_total_degree(q) by {
        let i = k / m;
        let j = k % m;
        vstd::arithmetic::div_mod::lemma_fundamental_div_mod(k, m);
        assert(0 <= i < n) by (nonlinear_arith)
            requires
                k == m * i + j,
                0 <= j < m,
                0 <= k < n * m,
                m > 0,
        ;
        assert(k == i * m + j) by (nonlinear_arith)
            requires
                k == m * i + j,
        ;
        assert(widen(r[i * m + j].degree@) == combined_degree(p[i].degree@, q[j].degree@));
        lemma_int_sum_widen(r[k].degree@);
        lemma_total_degree_of_product(p[i].degree@, q[j].degree@);
    }
    let i = choose|i: int| 0 <= i < p.len() && degree_sum(#[trigger] p[i].degree@) == max_total_degree(p);
    let j = choose|j: int| 0 <= j < q.len() && degree_sum(#[trigger] q[j].degree@) == max_total_degree(q);
    let k = i * m + j;
    assert(0 <= k < r.len()) by (nonlinear_arith)
        requires
            k == i * m + j,
            0 <= i < n,
            0 <= j < m,
            r.len() == n * m,
    ;
    assert(widen(r[i * m + j].degree@) == combined_degree(p[i].degree@, q[j].degree@));
    lemma_int_sum_widen(r[k].degree@);
    lemma_total_degree_of_product(p[i].degree@, q[j].degree@);
    let t = choose|t: int| 0 <= t < r.len() && degree_sum(#[trigger] r[t].degree@) == max_total_degree(r);
    assert(degree_sum(r[t].degree@) <= max_total_degree(p) + max_total_degree(q));
    assert(degree_sum(r[k].degree@) <= max_total_degree(r));
}

} // verus!
