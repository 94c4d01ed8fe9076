//! Tropical intersection theory: the Bézout count and intersection
//! multiplicities.
use vstd::prelude::*;

verus! {

/// The tropical Bézout number: two tropical hypersurfaces of degrees `d1`
/// and `d2` meet in `d1 * d2` points, counted with multiplicity.
pub fn tropical_bezout_number(d1: u32, d2: u32) -> (n: u32)
    requires
        d1 * d2 <= u32::MAX,
    ensures
        n == d1 * d2,
{
    d1 * d2
}

/// The multiplicity of an intersection point of two hypersurfaces in
/// `num_vars` variables at which `dominant1` and `dominant2` monomials of the
/// two polynomials attain the maximum: 0 unless each has at least two; 1 for
/// univariate polynomials; otherwise `(dominant1 - 1) * (dominant2 - 1)`,
/// truncated to its low 32 bits.
pub open spec fn multiplicity_spec(num_vars: int, dominant1: int, dominant2: int) -> int {
    if dominant1 < 2 || dominant2 < 2 {
        0
    } else if num_vars == 1 {
        1
    } else {
        ((dominant1 - 1) * (dominant2 - 1)) % 0x1_0000_0000
    }
}

/// The intersection multiplicity from the number of dominant monomials of
/// each polynomial at the point (see `multiplicity_spec`).
pub fn multiplicity_from_dominant_counts(num_vars: usize, dominant1: usize, dominant2: usize) -> (m: u32)
    requires
        dominant1 >= 2 && dominant2 >= 2 && num_vars != 1 ==> (dominant1 - 1) * (dominant2 - 1) <= usize::MAX,
    ensures
        m == multiplicity_spec(num_vars as int, dominant1 as int, dominant2 as int),
        dominant1 < 2 || dominant2 < 2 ==> m == 0,
        dominant1 >= 2 && dominant2 >= 2 && num_vars == 1 ==> m == 1,
        dominant1 >= 2 && dominant2 >= 2 && num_vars != 1 && (dominant1 - 1) * (dominant2 - 1) <= u32::MAX
            ==> m == (dominant1 - 1) * (dominant2 - 1),
{
    if dominant1 < 2 || dominant2 < 2 {
        return 0;
    }
    if num_vars == 1 {
        return 1;
    }
    let a: usize = dominant1 - 1;
    let b: usize = dominant2 - 1;
    let mult: usize = a * b;
    assert(mult >= 1) by (nonlinear_arith)
        requires
            a >= 1,
            b >= 1,
            mult == a * b,
    ;
    let mult = if mult >= 1 { mult } else { 1 };
    let wide = mult as u64;
    (wide % 0x1_0000_0000) as u32
}

/// Away from the univariate case, with at least two dominant monomials on
/// each side, the multiplicity is the product `(dominant1 - 1) *
/// (dominant2 - 1)` whenever that fits in 32 bits.
pub proof fn lemma_multiplicity_is_product(num_vars: int, dominant1: int, dominant2: int)
    requires
        num_vars != 1,
        dominant1 >= 2,
        dominant2 >= 2,
        (dominant1 - 1) * (dominant2 - 1) <= u32::MAX,
    ensures
        multiplicity_spec(num_vars, dominant1, dominant2) == (dominant1 - 1) * (dominant2 - 1),
{
    let p = (dominant1 - 1) * (dominant2 - 1);
    assert(p >= 1) by (nonlinear_arith)
        requires
            dominant1 >= 2,
            dominant2 >= 2,
            p == (dominant1 - 1) * (dominant2 - 1),
    ;
}

/// The multiplicity is multiplicative in each side: multiplying
/// `dominant2 - 1` by `k` multiplies the multiplicity by `k` (while the
/// product fits in 32 bits).
pub proof fn lemma_multiplicity_scales(num_vars: int, dominant1: int, dominant2: int, k: int)
    requires
        num_vars != 1,
        dominant1 >= 2,
        dominant2 >= 2,
        k >= 1,
        (dominant1 - 1) * (k * (dominant2 - 1)) <= u32::MAX,
    ensures
        multiplicity_spec(num_vars, dominant1, k * (dominant2 - 1) + 1) == k * multiplicity_spec(
            num_vars,
            dominant1,
            dominant2,
        ),
{
    let (a, b) = (dominant1 - 1, dominant2 - 1);
    assert(k * b >= b && a * b <= a * (k * b) && a * (k * b) == k * (a * b)) by (nonlinear_arith)
        requires
            a >= 1,
            b >= 1,
            k >= 1,
    ;
    lemma_multiplicity_is_product(num_vars, dominant1, dominant2);
    lemma_multiplicity_is_product(num_vars, dominant1, k * b + 1);
}

/// With a single dominant monomial on either side there is no intersection
/// (multiplicity 0); univariate intersections have multiplicity 1.
pub proof fn lemma_multiplicity_degenerate_cases(num_vars: int, dominant1: int, dominant2: int)
    ensures
        dominant1 < 2 || dominant2 < 2 ==> multiplicity_spec(num_vars, dominant1, dominant2) == 0,
        dominant1 >= 2 && dominant2 >= 2 && num_vars == 1 ==> multiplicity_spec(num_vars, dominant1, dominant2) == 1,
{
}

} // verus!
