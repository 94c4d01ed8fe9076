//! The rank of a set of integer vectors over the rationals.
//!
//! Rows are processed in order; a row raises the rank exactly when it is not
//! a rational combination of the rows before it, so the rank is the
//! dimension of the span of the rows. The computation is exact: fraction-free
//! elimination against an echelon basis of the rows seen so far, in
//! integers of unbounded size.
use crate::bigint::{divide_content, scaled_by, BigInt};
use vstd::prelude::*;

verus! {

/// `Σ_{t < cnt} c[t] * rows[t][k]`: coordinate `k` of the combination of the
/// first `cnt` rows with coefficients `c`.
pub open spec fn lin(c: Seq<int>, rows: Seq<Seq<int>>, cnt: int, k: int) -> int
    decreases cnt,
{
    if cnt <= 0 {
        0
    } else {
        lin(c, rows, cnt - 1, k) + c[cnt - 1] * rows[cnt - 1][k]
    }
}

/// `d * v == Σ_{t < cnt} c[t] * rows[t]` in each of the first `n`
/// coordinates, with `d != 0`: a witness that `v` is a rational combination
/// of the first `cnt` rows.
pub open spec fn span_witness(rows: Seq<Seq<int>>, cnt: int, v: Seq<int>, n: int, d: int, c: Seq<int>) -> bool {
    d != 0 && forall|k: int| 0 <= k < n ==> d * v[k] == #[trigger] lin(c, rows, cnt, k)
}

/// `v` (in its first `n` coordinates) is a rational combination of the first
/// `cnt` rows.
pub open spec fn in_span(rows: Seq<Seq<int>>, cnt: int, v: Seq<int>, n: int) -> bool {
    exists|d: int, c: Seq<int>| #[trigger] span_witness(rows, cnt, v, n, d, c)
}

/// The number of rows among the first `i` that are not rational
/// combinations of the rows before them.
pub open spec fn rank_prefix(rows: Seq<Seq<int>>, n: int, i: int) -> nat
    decreases i,
{
    if i <= 0 {
        0
    } else {
        rank_prefix(rows, n, i - 1) + if in_span(rows, i - 1, rows[i - 1], n) { 0nat } else { 1nat }
    }
}

/// The rank over the rationals of the rows, read in their first `n`
/// coordinates: the dimension of their span.
pub open spec fn rank_spec(rows: Seq<Seq<int>>, n: int) -> nat {
    rank_prefix(rows, n, rows.len() as int)
}

/// The rows of an integer matrix as sequences of mathematical integers.
pub open spec fn int_rows(vectors: Seq<Vec<i64>>) -> Seq<Seq<int>> {
    vectors.map_values(|v: Vec<i64>| v@.map_values(|x: i64| x as int))
}

// ---- combinations ----

/// `a * x + b * y`, entrywise, over the first `len` entries.
pub open spec fn comb(a: int, x: Seq<int>, b: int, y: Seq<int>, len: int) -> Seq<int> {
    Seq::new(len as nat, |t: int| a * x[t] + b * y[t])
}

proof fn lemma_lin_ext(c1: Seq<int>, c2: Seq<int>, rows: Seq<Seq<int>>, cnt: int, k: int)
    requires
        forall|t: int| 0 <= t < cnt ==> c1[t] == c2[t],
    ensures
        lin(c1, rows, cnt, k) == lin(c2, rows, cnt, k),
    decreases cnt,
{
    if cnt > 0 {
        lemma_lin_ext(c1, c2, rows, cnt - 1, k);
    }
}

proof fn lemma_lin_comb(a: int, x: Seq<int>, b: int, y: Seq<int>, len: int, rows: Seq<Seq<int>>, cnt: int, k: int)
    requires
        0 <= cnt <= len,
    ensures
        lin(comb(a, x, b, y, len), rows, cnt, k) == a * lin(x, rows, cnt, k) + b * lin(y, rows, cnt, k),
    decreases cnt,
{
    if cnt > 0 {
        lemma_lin_comb(a, x, b, y, len, rows, cnt - 1, k);
        let r = rows[cnt - 1][k];
        let (xi, yi) = (x[cnt - 1], y[cnt - 1]);
        assert((a * xi + b * yi) * r == a * (xi * r) + b * (yi * r)) by (nonlinear_arith);
        let lx = lin(x, rows, cnt - 1, k);
        let ly = lin(y, rows, cnt - 1, k);
        assert(a * (lx + xi * r) + b * (ly + yi * r) == a * lx + b * ly + a * (xi * r) + b * (yi * r))
            by (nonlinear_arith);
    }
}

/// A combination whose coefficients vanish before `cnt` is zero.
proof fn lemma_lin_zero(c: Seq<int>, rows: Seq<Seq<int>>, cnt: int, k: int)
    requires
        forall|t: int| 0 <= t < cnt ==> c[t] == 0,
    ensures
        lin(c, rows, cnt, k) == 0,
    decreases cnt,
{
    if cnt > 0 {
        lemma_lin_zero(c, rows, cnt - 1, k);
    }
}

/// A combination with a single nonzero coefficient `c[j]` is `c[j] * rows[j]`.
proof fn lemma_lin_single(c: Seq<int>, rows: Seq<Seq<int>>, cnt: int, j: int, k: int)
    requires
        0 <= j < cnt,
        forall|t: int| 0 <= t < cnt && t != j ==> c[t] == 0 || rows[t][k] == 0,
    ensures
        lin(c, rows, cnt, k) == c[j] * rows[j][k],
    decreases cnt,
{
    if cnt - 1 > j {
        lemma_lin_single(c, rows, cnt - 1, j, k);
        assert(c[cnt - 1] * rows[cnt - 1][k] == 0) by (nonlinear_arith)
            requires
                c[cnt - 1] == 0 || rows[cnt - 1][k] == 0,
        ;
    } else {
        assert forall|t: int| 0 <= t < j implies c[t] * rows[t][k] == 0 by {
            assert(c[t] * rows[t][k] == 0) by (nonlinear_arith)
                requires
                    c[t] == 0 || rows[t][k] == 0,
            ;
        }
        lemma_lin_zero_terms(c, rows, j, k);
    }
}

proof fn lemma_lin_zero_terms(c: Seq<int>, rows: Seq<Seq<int>>, cnt: int, k: int)
    requires
        forall|t: int| 0 <= t < cnt ==> c[t] * rows[t][k] == 0,
    ensures
        lin(c, rows, cnt, k) == 0,
    decreases cnt,
{
    if cnt > 0 {
        lemma_lin_zero_terms(c, rows, cnt - 1, k);
    }
}

/// The mixture `s ↦ Σ_{t < i} c[t] * ks[t][s]` of coefficient sequences.
pub open spec fn mix(c: Seq<int>, ks: Seq<Seq<int>>, i: int, len: int) -> Seq<int> {
    Seq::new(len as nat, |s: int| lin(c, ks, i, s))
}

/// Combining rows that are themselves combinations of a basis:
/// `Σ_t c[t] * (Σ_s ks[t][s] * basis[s]) == Σ_s mix(c, ks)[s] * basis[s]`.
proof fn lemma_lin_mix(
    c: Seq<int>,
    ks: Seq<Seq<int>>,
    i: int,
    vs: Seq<Seq<int>>,
    basis: Seq<Seq<int>>,
    r: int,
    len: int,
    k: int,
)
    requires
        0 <= i,
        0 <= r <= len,
        forall|t: int| 0 <= t < i ==> vs[t][k] == #[trigger] lin(ks[t], basis, r, k),
    ensures
        lin(c, vs, i, k) == lin(mix(c, ks, i, len), basis, r, k),
    decreases i,
{
    if i == 0 {
        lemma_lin_zero(mix(c, ks, i, len), basis, r, k);
    } else {
        lemma_lin_mix(c, ks, i - 1, vs, basis, r, len, k);
        let m0 = mix(c, ks, i - 1, len);
        let m1 = mix(c, ks, i, len);
        let one = comb(1, m0, c[i - 1], ks[i - 1], len);
        assert forall|s: int| 0 <= s < r implies m1[s] == one[s] by {}
        lemma_lin_ext(m1, one, basis, r, k);
        lemma_lin_comb(1, m0, c[i - 1], ks[i - 1], len, basis, r, k);
        assert(vs[i - 1][k] == lin(ks[i - 1], basis, r, k));
    }
}

proof fn lemma_lin_prefix_rows(c: Seq<int>, vs: Seq<Seq<int>>, ws: Seq<Seq<int>>, cnt: int, k: int)
    requires
        0 <= cnt,
        forall|t: int| 0 <= t < cnt ==> vs[t][k] == ws[t][k],
    ensures
        lin(c, vs, cnt, k) == lin(c, ws, cnt, k),
    decreases cnt,
{
    if cnt > 0 {
        lemma_lin_prefix_rows(c, vs, ws, cnt - 1, k);
    }
}

/// In an echelon basis (row `s` nonzero at its pivot, zero at the pivots of
/// the rows before it), a combination vanishing at every pivot has only
/// zero coefficients.
proof fn lemma_echelon_independent(mu: Seq<int>, basis: Seq<Seq<int>>, piv: Seq<int>, r: int, t: int)
    requires
        0 <= t <= r,
        forall|s: int| 0 <= s < r ==> basis[s][piv[s]] != 0,
        forall|s: int, u: int| 0 <= u < s < r ==> basis[s][piv[u]] == 0,
        forall|u: int| 0 <= u < r ==> #[trigger] lin(mu, basis, r, piv[u]) == 0,
    ensures
        forall|s: int| 0 <= s < t ==> mu[s] == 0,
    decreases t,
{
    if t > 0 {
        lemma_echelon_independent(mu, basis, piv, r, t - 1);
        let u = t - 1;
        assert forall|s: int| 0 <= s < r && s != u implies mu[s] == 0 || basis[s][piv[u]] == 0 by {}
        lemma_lin_single(mu, basis, r, u, piv[u]);
        assert(lin(mu, basis, r, piv[u]) == 0);
        let (a, b) = (mu[u], basis[u][piv[u]]);
        assert(a == 0) by (nonlinear_arith)
            requires
                a * b == 0,
                b != 0,
        ;
    }
}

} // verus!

verus! {

/// The rows of a basis as sequences of mathematical integers.
pub open spec fn big_rows(vs: Seq<Vec<BigInt>>) -> Seq<Seq<int>> {
    vs.map_values(|v: Vec<BigInt>| big_vals(v@))
}

/// The values of a row of big integers.
pub open spec fn big_vals(v: Seq<BigInt>) -> Seq<int> {
    v.map_values(|x: BigInt| x.val())
}

/// Pivot positions as mathematical integers.
pub open spec fn int_pivots(ps: Seq<usize>) -> Seq<int> {
    ps.map_values(|p: usize| p as int)
}

/// `basis` is in echelon form: row `s` has length `n`, is nonzero at its
/// pivot and zero at the pivots of the rows before it.
pub open spec fn echelon(basis: Seq<Seq<int>>, piv: Seq<int>, n: int) -> bool {
    &&& basis.len() == piv.len()
    &&& forall|s: int| 0 <= s < basis.len() ==> (#[trigger] basis[s]).len() == n
    &&& forall|s: int| 0 <= s < basis.len() ==> 0 <= #[trigger] piv[s] < n
    &&& forall|s: int| 0 <= s < basis.len() ==> #[trigger] basis[s][piv[s]] != 0
    &&& forall|s: int, u: int| 0 <= u < s < basis.len() ==> #[trigger] basis[s][piv[u]] == 0
}

/// The elimination state after the first `i` rows: an echelon basis whose
/// rows, times nonzero `e`, are integer combinations `a` of those rows, each of those rows
/// times `den` an integer combination `k` of the basis rows, and one basis
/// row per rank step.
pub open spec fn elim_inv(
    rows: Seq<Seq<int>>,
    m: int,
    n: int,
    i: int,
    basis: Seq<Seq<int>>,
    piv: Seq<int>,
    a: Seq<Seq<int>>,
    e: Seq<int>,
    k: Seq<Seq<int>>,
    den: int,
) -> bool {
    let r = basis.len() as int;
    &&& echelon(basis, piv, n)
    &&& r <= n
    &&& a.len() == r
    &&& forall|s: int| 0 <= s < r ==> (#[trigger] a[s]).len() == m
    &&& forall|s: int, t: int| 0 <= s < r && i <= t < m ==> #[trigger] a[s][t] == 0
    &&& e.len() == r
    &&& forall|s: int| 0 <= s < r ==> #[trigger] e[s] != 0
    &&& forall|s: int, c: int| 0 <= s < r && 0 <= c < n ==> e[s] * #[trigger] basis[s][c] == lin(a[s], rows, i, c)
    &&& k.len() == i
    &&& den != 0
    &&& forall|t: int| 0 <= t < i ==> (#[trigger] k[t]).len() == n
    &&& forall|t: int, s: int| 0 <= t < i && r <= s < n ==> #[trigger] k[t][s] == 0
    &&& forall|t: int, c: int| 0 <= t < i && 0 <= c < n ==> den * rows[t][c] == #[trigger] lin(k[t], basis, r, c)
    &&& r == rank_prefix(rows, n, i)
}

/// Distinct pivots below `n` number at most `n`.
proof fn lemma_pivots_fit(piv: Seq<int>, n: int)
    requires
        0 <= n,
        forall|s: int| 0 <= s < piv.len() ==> 0 <= #[trigger] piv[s] < n,
        forall|s: int, u: int| 0 <= u < s < piv.len() ==> piv[s] != piv[u],
    ensures
        piv.len() <= n,
{
    assert(piv.no_duplicates()) by {
        assert forall|s: int, u: int| 0 <= s < piv.len() && 0 <= u < piv.len() && s != u implies piv[s] != piv[u] by {
            if u < s {
            } else {
                assert(piv[u] != piv[s]);
            }
        }
    }
    piv.unique_seq_to_set();
    vstd::set_lib::lemma_int_range(0, n);
    assert forall|x: int| piv.to_set().contains(x) implies vstd::set_lib::set_int_range(0, n).contains(x) by {
        assert(piv.contains(x));
    }
    vstd::set_lib::lemma_len_subset(piv.to_set(), vstd::set_lib::set_int_range(0, n));
}

} // verus!

verus! {

/// The rows of `rows` scaled by `f`, over the first `i` rows and `n`
/// coordinates.
pub open spec fn scaled_rows(rows: Seq<Seq<int>>, f: int, i: int, n: int) -> Seq<Seq<int>> {
    Seq::new(i as nat, |t: int| Seq::new(n as nat, |c: int| f * rows[t][c]))
}

proof fn lemma_lin_scaled_rows(x: Seq<int>, rows: Seq<Seq<int>>, f: int, i: int, n: int, cnt: int, c: int)
    requires
        0 <= cnt <= i,
        0 <= c < n,
    ensures
        lin(x, scaled_rows(rows, f, i, n), cnt, c) == f * lin(x, rows, cnt, c),
    decreases cnt,
{
    if cnt > 0 {
        lemma_lin_scaled_rows(x, rows, f, i, n, cnt - 1, c);
        let (a, r, l) = (x[cnt - 1], rows[cnt - 1][c], lin(x, rows, cnt - 1, c));
        assert(f * l + a * (f * r) == f * (l + a * r)) by (nonlinear_arith);
    }
}

/// One reduction step `w2 = alpha * w - beta * b`, with `ew * w` and
/// `eb * b` combinations of the rows, keeps `(ew * eb) * w2` a combination
/// `d' * row_i + Σ n'[t] * row_t` of the rows.
proof fn lemma_reduce(
    rows: Seq<Seq<int>>,
    i: int,
    m: int,
    n: int,
    w: Seq<int>,
    ew: int,
    d: int,
    nn: Seq<int>,
    bs: Seq<int>,
    eb: int,
    aa: Seq<int>,
    alpha: int,
    beta: int,
    w2: Seq<int>,
)
    requires
        0 <= i <= m,
        forall|c: int| 0 <= c < n ==> ew * w[c] == d * rows[i][c] + #[trigger] lin(nn, rows, i, c),
        forall|c: int| 0 <= c < n ==> eb * bs[c] == #[trigger] lin(aa, rows, i, c),
        forall|c: int| 0 <= c < n ==> #[trigger] w2[c] == alpha * w[c] - beta * bs[c],
    ensures
        forall|c: int|
            0 <= c < n ==> (ew * eb) * #[trigger] w2[c] == (alpha * eb * d) * rows[i][c] + lin(
                comb(alpha * eb, nn, -beta * ew, aa, m),
                rows,
                i,
                c,
            ),
{
    assert forall|c: int| 0 <= c < n implies (ew * eb) * #[trigger] w2[c] == (alpha * eb * d) * rows[i][c] + lin(
        comb(alpha * eb, nn, -beta * ew, aa, m),
        rows,
        i,
        c,
    ) by {
        lemma_lin_comb(alpha * eb, nn, -beta * ew, aa, m, rows, i, c);
        let (x, y, z, wc, bc) = (rows[i][c], lin(nn, rows, i, c), lin(aa, rows, i, c), w[c], bs[c]);
        let (u, v) = (alpha * wc, beta * bc);
        assert((ew * eb) * (u - v) == (ew * eb) * u - (ew * eb) * v) by (nonlinear_arith);
        assert((ew * eb) * (alpha * wc) == (alpha * eb) * (ew * wc)) by (nonlinear_arith);
        assert((ew * eb) * (beta * bc) == (beta * ew) * (eb * bc)) by (nonlinear_arith);
        assert((alpha * eb) * (d * x + y) == (alpha * eb * d) * x + (alpha * eb) * y) by (nonlinear_arith);
        assert((beta * ew) * z == -((-beta * ew) * z)) by (nonlinear_arith);
    }
}

/// The basis rows stay combinations of the rows after one more row is
/// read, since their coefficient for it is zero.
proof fn lemma_basis_next_row(
    rows: Seq<Seq<int>>,
    m: int,
    n: int,
    i: int,
    basis: Seq<Seq<int>>,
    a: Seq<Seq<int>>,
    e: Seq<int>,
)
    requires
        0 <= i < m,
        a.len() == basis.len(),
        forall|s: int, t: int| 0 <= s < basis.len() && i <= t < m ==> #[trigger] a[s][t] == 0,
        forall|s: int, c: int| 0 <= s < basis.len() && 0 <= c < n ==> e[s] * #[trigger] basis[s][c] == lin(a[s], rows, i, c),
    ensures
        forall|s: int, c: int| 0 <= s < basis.len() && 0 <= c < n ==> e[s] * #[trigger] basis[s][c] == lin(a[s], rows, i + 1, c),
{
    assert forall|s: int, c: int| 0 <= s < basis.len() && 0 <= c < n implies e[s] * #[trigger] basis[s][c] == lin(
        a[s],
        rows,
        i + 1,
        c,
    ) by {
        assert(a[s][i] == 0);
        assert(a[s][i] * rows[i][c] == 0) by (nonlinear_arith)
            requires
                a[s][i] == 0,
        ;
    }
}

/// Old rows, rescaled by `d`, stay combinations of the basis.
proof fn lemma_rescale_row(kt: Seq<int>, basis: Seq<Seq<int>>, r: int, n: int, den: int, d: int, row: Seq<int>, c: int)
    requires
        0 <= r <= n,
        den * row[c] == lin(kt, basis, r, c),
    ensures
        (den * d) * row[c] == lin(comb(d, kt, 0, kt, n), basis, r, c),
{
    lemma_lin_comb(d, kt, 0, kt, n, basis, r, c);
    let (x, l) = (row[c], lin(kt, basis, r, c));
    assert((den * d) * x == d * (den * x) + 0 * l) by (nonlinear_arith);
}

/// `mix(nn, k)` vanishes beyond the basis when every `k[t]` does.
proof fn lemma_mix_tail(nn: Seq<int>, k: Seq<Seq<int>>, i: int, r: int, n: int)
    requires
        0 <= i,
        0 <= r,
        forall|t: int, s: int| 0 <= t < i && r <= s < n ==> #[trigger] k[t][s] == 0,
    ensures
        forall|s: int| r <= s < n ==> #[trigger] mix(nn, k, i, n)[s] == 0,
{
    assert forall|s: int| r <= s < n implies #[trigger] mix(nn, k, i, n)[s] == 0 by {
        assert forall|t: int| 0 <= t < i implies nn[t] * k[t][s] == 0 by {
            assert(k[t][s] == 0);
            assert(nn[t] * k[t][s] == 0) by (nonlinear_arith)
                requires
                    k[t][s] == 0,
            ;
        }
        lemma_lin_zero_terms(nn, k, i, s);
        assert(mix(nn, k, i, n)[s] == lin(nn, k, i, s));
    }
}

/// `den * (Σ_t nn[t] * row_t) == Σ_s mix(nn, k)[s] * basis_s`.
proof fn lemma_rows_to_basis(
    rows: Seq<Seq<int>>,
    nn: Seq<int>,
    k: Seq<Seq<int>>,
    i: int,
    basis: Seq<Seq<int>>,
    r: int,
    n: int,
    den: int,
    c: int,
)
    requires
        0 <= i,
        0 <= r <= n,
        0 <= c < n,
        forall|t: int, cc: int| 0 <= t < i && 0 <= cc < n ==> den * rows[t][cc] == #[trigger] lin(k[t], basis, r, cc),
    ensures
        den * lin(nn, rows, i, c) == lin(mix(nn, k, i, n), basis, r, c),
{
    let dr = scaled_rows(rows, den, i, n);
    lemma_lin_scaled_rows(nn, rows, den, i, n, i, c);
    assert forall|t: int| 0 <= t < i implies dr[t][c] == #[trigger] lin(k[t], basis, r, c) by {}
    lemma_lin_mix(nn, k, i, dr, basis, r, n, c);
}

} // verus!

verus! {

/// A row that reduces to zero is a rational combination of the rows before
/// it: the rank does not grow, and with the common denominator scaled by
/// `d` every row read so far stays a combination of the basis.
proof fn lemma_dependent_step(
    rows: Seq<Seq<int>>,
    m: int,
    n: int,
    i: int,
    basis: Seq<Seq<int>>,
    piv: Seq<int>,
    a: Seq<Seq<int>>,
    e: Seq<int>,
    k: Seq<Seq<int>>,
    den: int,
    d: int,
    nn: Seq<int>,
) -> (k2: Seq<Seq<int>>)
    requires
        0 <= i < m,
        0 <= n,
        elim_inv(rows, m, n, i, basis, piv, a, e, k, den),
        d != 0,
        nn.len() == m,
        forall|c: int| 0 <= c < n ==> d * rows[i][c] + #[trigger] lin(nn, rows, i, c) == 0,
    ensures
        in_span(rows, i, rows[i], n),
        elim_inv(rows, m, n, i + 1, basis, piv, a, e, k2, den * d),
{
    let r = basis.len() as int;
    let negn = comb(-1, nn, 0, nn, m);
    assert forall|c: int| 0 <= c < n implies d * rows[i][c] == #[trigger] lin(negn, rows, i, c) by {
        lemma_lin_comb(-1, nn, 0, nn, m, rows, i, c);
        assert(d * rows[i][c] + lin(nn, rows, i, c) == 0);
    }
    assert(span_witness(rows, i, rows[i], n, d, negn));
    let mx = mix(nn, k, i, n);
    lemma_mix_tail(nn, k, i, r, n);
    let kn = comb(-1, mx, 0, mx, n);
    let k2 = Seq::new((i + 1) as nat, |t: int| if t < i { comb(d, k[t], 0, k[t], n) } else { kn });
    lemma_basis_next_row(rows, m, n, i, basis, a, e);
    assert forall|t: int, c: int| 0 <= t < i + 1 && 0 <= c < n implies (den * d) * rows[t][c] == #[trigger] lin(
        k2[t],
        basis,
        r,
        c,
    ) by {
        if t < i {
            lemma_rescale_row(k[t], basis, r, n, den, d, rows[t], c);
        } else {
            lemma_rows_to_basis(rows, nn, k, i, basis, r, n, den, c);
            lemma_lin_comb(-1, mx, 0, mx, n, basis, r, c);
            let (x, y) = (rows[i][c], lin(nn, rows, i, c));
            assert(d * x + y == 0);
            assert((den * d) * x == -1 * (den * y) + 0 * (den * y)) by (nonlinear_arith)
                requires
                    d * x + y == 0,
            ;
        }
    }
    assert forall|t: int, s: int| 0 <= t < i + 1 && r <= s < n implies #[trigger] k2[t][s] == 0 by {
        if t < i {
            assert(k[t][s] == 0);
        } else {
            assert(mx[s] == 0);
        }
    }
    assert(den * d != 0) by (nonlinear_arith)
        requires
            den != 0,
            d != 0,
    ;
    assert forall|t: int| 0 <= t < i + 1 implies (#[trigger] k2[t]).len() == n by {}
    assert(rank_prefix(rows, n, i + 1) == rank_prefix(rows, n, i));
    k2
}

/// A row that does not reduce to zero is not a rational combination of the
/// rows before it: it joins the basis and the rank grows by one.
proof fn lemma_independent_step(
    rows: Seq<Seq<int>>,
    m: int,
    n: int,
    i: int,
    basis: Seq<Seq<int>>,
    piv: Seq<int>,
    a: Seq<Seq<int>>,
    e: Seq<int>,
    k: Seq<Seq<int>>,
    den: int,
    d: int,
    nn: Seq<int>,
    w: Seq<int>,
    f: int,
    k0: int,
) -> (res: (Seq<Seq<int>>, Seq<Seq<int>>))
    requires
        0 <= i < m,
        0 <= n,
        elim_inv(rows, m, n, i, basis, piv, a, e, k, den),
        d != 0,
        nn.len() == m,
        forall|t: int| i <= t < m ==> nn[t] == 0,
        w.len() == n,
        f != 0,
        forall|c: int| 0 <= c < n ==> f * w[c] == d * rows[i][c] + #[trigger] lin(nn, rows, i, c),
        forall|u: int| 0 <= u < basis.len() ==> w[#[trigger] piv[u]] == 0,
        0 <= k0 < n,
        w[k0] != 0,
    ensures
        !in_span(rows, i, rows[i], n),
        elim_inv(rows, m, n, i + 1, basis.push(w), piv.push(k0), res.0, e.push(f), res.1, den * d),
{
    let r = basis.len() as int;
    if in_span(rows, i, rows[i], n) {
        let (ee, c) = choose|ee: int, c: Seq<int>| span_witness(rows, i, rows[i], n, ee, c);
        let cc = comb(d, c, ee, nn, m);
        let mu = mix(cc, k, i, n);
        assert forall|col: int| 0 <= col < n implies ee * den * (f * w[col]) == #[trigger] lin(mu, basis, r, col) by {
            lemma_lin_comb(d, c, ee, nn, m, rows, i, col);
            lemma_rows_to_basis(rows, cc, k, i, basis, r, n, den, col);
            let (x, y, lc, fw) = (rows[i][col], lin(nn, rows, i, col), lin(c, rows, i, col), f * w[col]);
            assert(ee * x == lc);
            assert(ee * den * fw == den * (d * lc + ee * y)) by (nonlinear_arith)
                requires
                    ee * x == lc,
                    fw == d * x + y,
            ;
        }
        assert forall|u: int| 0 <= u < r implies #[trigger] lin(mu, basis, r, piv[u]) == 0 by {
            let q = piv[u];
            assert(w[q] == 0);
            assert(ee * den * (f * w[q]) == lin(mu, basis, r, q));
            assert(ee * den * (f * w[q]) == 0) by (nonlinear_arith)
                requires
                    w[q] == 0,
            ;
        }
        lemma_echelon_independent(mu, basis, piv, r, r);
        lemma_lin_zero(mu, basis, r, k0);
        assert(ee * den * (f * w[k0]) == 0);
        assert(false) by (nonlinear_arith)
            requires
                ee * den * (f * w[k0]) == 0,
                ee != 0,
                den != 0,
                f != 0,
                w[k0] != 0,
        ;
    }
    let b2 = basis.push(w);
    let p2 = piv.push(k0);
    let an = nn.update(i, d);
    let a2 = a.push(an);
    let mx = mix(nn, k, i, n);
    lemma_mix_tail(nn, k, i, r, n);
    let e2 = e.push(f);
    let kn = Seq::new(n as nat, |s: int| if s == r { den * f } else { -mx[s] });
    let k2 = Seq::new((i + 1) as nat, |t: int| if t < i { comb(d, k[t], 0, k[t], n) } else { kn });
    // Distinct pivots: at most n basis rows.
    assert forall|s: int, u: int| 0 <= u < s < p2.len() implies p2[s] != p2[u] by {
        if s == r {
            assert(w[piv[u]] == 0);
        } else {
            assert(basis[s][piv[u]] == 0);
            assert(basis[s][piv[s]] != 0);
        }
    }
    lemma_pivots_fit(p2, n);
    assert(echelon(b2, p2, n)) by {
        assert forall|s: int, u: int| 0 <= u < s < b2.len() implies #[trigger] b2[s][p2[u]] == 0 by {
            if s == r {
                assert(w[piv[u]] == 0);
            }
        }
        assert forall|s: int| 0 <= s < b2.len() implies #[trigger] b2[s][p2[s]] != 0 by {}
        assert forall|s: int| 0 <= s < b2.len() implies (#[trigger] b2[s]).len() == n by {}
        assert forall|s: int| 0 <= s < b2.len() implies 0 <= #[trigger] p2[s] < n by {}
    }
    lemma_basis_next_row(rows, m, n, i, basis, a, e);
    assert forall|s: int, col: int| 0 <= s < r + 1 && 0 <= col < n implies e2[s] * #[trigger] b2[s][col] == lin(
        a2[s],
        rows,
        i + 1,
        col,
    ) by {
        if s == r {
            lemma_lin_ext(an, nn, rows, i, col);
            assert(lin(an, rows, i + 1, col) == lin(an, rows, i, col) + an[i] * rows[i][col]);
        } else {
            assert(b2[s] == basis[s]);
            assert(a2[s] == a[s]);
            assert(e2[s] == e[s]);
        }
    }
    assert forall|s: int| 0 <= s < r + 1 implies #[trigger] e2[s] != 0 by {}
    assert forall|s: int, t: int| 0 <= s < r + 1 && i + 1 <= t < m implies #[trigger] a2[s][t] == 0 by {
        if s < r {
            assert(a2[s] == a[s]);
        }
    }
    assert forall|t: int, col: int| 0 <= t < i + 1 && 0 <= col < n implies (den * d) * rows[t][col] == #[trigger] lin(
        k2[t],
        b2,
        r + 1,
        col,
    ) by {
        assert forall|s: int| 0 <= s < r implies b2[s][col] == basis[s][col] by {}
        lemma_lin_prefix_rows(k2[t], b2, basis, r, col);
        if t < i {
            lemma_rescale_row(k[t], basis, r, n, den, d, rows[t], col);
            assert(k[t][r] == 0);
            let kr = k2[t][r];
            assert(kr == d * k[t][r] + 0 * k[t][r]);
            assert(kr * b2[r][col] == 0) by (nonlinear_arith)
                requires
                    kr == d * k[t][r] + 0 * k[t][r],
                    k[t][r] == 0,
            ;
        } else {
            let neg = comb(-1, mx, 0, mx, n);
            assert forall|s: int| 0 <= s < r implies kn[s] == neg[s] by {}
            lemma_lin_ext(kn, neg, basis, r, col);
            lemma_lin_comb(-1, mx, 0, mx, n, basis, r, col);
            lemma_rows_to_basis(rows, nn, k, i, basis, r, n, den, col);
            let (x, y, lm) = (rows[i][col], lin(nn, rows, i, col), lin(mx, basis, r, col));
            assert(den * y == lm);
            assert(f * w[col] == d * x + y);
            assert(kn[r] == den * f);
            assert(b2[r][col] == w[col]);
            assert((den * d) * x == (-1 * lm + 0 * lm) + (den * f) * w[col]) by (nonlinear_arith)
                requires
                    den * y == lm,
                    f * w[col] == d * x + y,
            ;
        }
    }
    assert forall|t: int, s: int| 0 <= t < i + 1 && r + 1 <= s < n implies #[trigger] k2[t][s] == 0 by {
        if t < i {
            assert(k[t][s] == 0);
        } else {
            assert(mx[s] == 0);
        }
    }
    assert(den * d != 0) by (nonlinear_arith)
        requires
            den != 0,
            d != 0,
    ;
    assert forall|t: int| 0 <= t < i + 1 implies (#[trigger] k2[t]).len() == n by {}
    assert forall|s: int| 0 <= s < r + 1 implies (#[trigger] a2[s]).len() == m by {}
    assert(rank_prefix(rows, n, i + 1) == rank_prefix(rows, n, i) + 1);
    (a2, k2)
}

} // verus!

verus! {

/// The rank of the vectors over the rationals: the number of vectors that
/// are not rational combinations of the vectors before them, i.e. the
/// dimension of their span, read in the first `n` coordinates where `n` is
/// the length of the first vector (no vector is shorter). The elimination
/// is exact, in integers of unbounded size, and each new basis row is
/// divided by the greatest common divisor of its entries.
pub fn rank_of_vectors(vectors: &[Vec<i64>]) -> (r: usize)
    requires
        forall|i: int| 0 <= i < vectors@.len() ==> (#[trigger] vectors@[i]).len() >= vectors@[0].len(),
    ensures
        vectors@.len() == 0 ==> r == 0,
        vectors@.len() > 0 ==> r == rank_spec(int_rows(vectors@), vectors@[0].len() as int),
        r <= vectors@.len(),
        vectors@.len() > 0 ==> r <= vectors@[0].len(),
{
    let m = vectors.len();
    if m == 0 {
        return 0;
    }
    let n = vectors[0].len();
    let ghost rows = int_rows(vectors@);
    let mut basis: Vec<Vec<BigInt>> = Vec::new();
    let mut pivots: Vec<usize> = Vec::new();
    let ghost mut a: Seq<Seq<int>> = Seq::empty();
    let ghost mut e: Seq<int> = Seq::empty();
    let ghost mut k: Seq<Seq<int>> = Seq::empty();
    let ghost mut den: int = 1;
    let mut i: usize = 0;
    assert(elim_inv(rows, m as int, n as int, 0, big_rows(basis@), int_pivots(pivots@), a, e, k, den));
    while i < m
        invariant
            m == vectors@.len(),
            n == vectors@[0].len(),
            rows == int_rows(vectors@),
            rows.len() == m,
            forall|t: int| 0 <= t < m ==> (#[trigger] vectors@[t]).len() >= n,
            i <= m,
            basis.len() == pivots.len(),
            elim_inv(rows, m as int, n as int, i as int, big_rows(basis@), int_pivots(pivots@), a, e, k, den),
        decreases m - i,
    {
        let ghost bi = big_rows(basis@);
        let ghost pi = int_pivots(pivots@);
        let row = &vectors[i];
        assert(row@.len() >= n);
        let mut w: Vec<BigInt> = Vec::new();
        let mut c: usize = 0;
        while c < n
            invariant
                c <= n,
                row@.len() >= n,
                *row == vectors@[i as int],
                rows == int_rows(vectors@),
                i < m,
                m == vectors@.len(),
                w.len() == c,
                forall|cc: int| 0 <= cc < c ==> #[trigger] w@[cc].val() == rows[i as int][cc],
            decreases n - c,
        {
            w.push(BigInt::from_i64(row[c]));
            c += 1;
        }
        let ghost mut d: int = 1;
        let ghost mut ew: int = 1;
        let ghost mut nn: Seq<int> = Seq::new(m as nat, |t: int| 0int);
        assert forall|cc: int| 0 <= cc < n implies ew * big_vals(w@)[cc] == d * rows[i as int][cc] + #[trigger] lin(
            nn,
            rows,
            i as int,
            cc,
        ) by {
            assert(w@[cc].val() == rows[i as int][cc]);
            lemma_lin_zero(nn, rows, i as int, cc);
        }
        let r = basis.len();
        let mut s: usize = 0;
        while s < r
            invariant
                bi == big_rows(basis@),
                pi == int_pivots(pivots@),
                r == basis.len(),
                r == pivots.len(),
                s <= r,
                i < m,
                rows.len() == m,
                elim_inv(rows, m as int, n as int, i as int, bi, pi, a, e, k, den),
                w.len() == n,
                d != 0,
                ew != 0,
                nn.len() == m,
                forall|t: int| i <= t < m ==> nn[t] == 0,
                forall|cc: int| 0 <= cc < n ==> ew * big_vals(w@)[cc] == d * rows[i as int][cc] + #[trigger] lin(nn, rows, i as int, cc),
                forall|u: int| 0 <= u < s ==> big_vals(w@)[#[trigger] pi[u]] == 0,
            decreases r - s,
        {
            assert(bi[s as int].len() == n);
            assert(0 <= pi[s as int] < n);
            let p = pivots[s];
            if !w[p].is_zero() {
                let brow = &basis[s];
                let ghost b_row = bi[s as int];
                assert(b_row =~= big_vals(brow@));
                assert(brow@.len() == n);
                let alpha = brow[p].copy();
                let beta = w[p].copy();
                let ghost w_old = big_vals(w@);
                let mut c: usize = 0;
                while c < n
                    invariant
                        c <= n,
                        w.len() == n,
                        brow@.len() == n,
                        b_row == big_vals(brow@),
                        w_old.len() == n,
                        forall|cc: int| 0 <= cc < c ==> #[trigger] big_vals(w@)[cc] == alpha.val() * w_old[cc] - beta.val() * b_row[cc],
                        forall|cc: int| c <= cc < n ==> #[trigger] big_vals(w@)[cc] == w_old[cc],
                    decreases n - c,
                {
                    let v = alpha.times(&w[c]).minus(&beta.times(&brow[c]));
                    assert(v.val() == alpha.val() * w_old[c as int] - beta.val() * b_row[c as int]) by {
                        assert(big_vals(w@)[c as int] == w@[c as int].val());
                        assert(b_row[c as int] == brow@[c as int].val());
                    }
                    let ghost prev = w@;
                    w.set(c, v);
                    proof {
                        assert forall|cc: int| 0 <= cc < n implies #[trigger] big_vals(w@)[cc] == if cc == c {
                            v.val()
                        } else {
                            big_vals(prev)[cc]
                        } by {
                            assert(big_vals(w@)[cc] == w@[cc].val());
                            assert(big_vals(prev)[cc] == prev[cc].val());
                        }
                    }
                    c += 1;
                }
                proof {
                    let nw = big_vals(w@);
                    lemma_reduce(
                        rows,
                        i as int,
                        m as int,
                        n as int,
                        w_old,
                        ew,
                        d,
                        nn,
                        b_row,
                        e[s as int],
                        a[s as int],
                        alpha.val(),
                        beta.val(),
                        nw,
                    );
                    let es = e[s as int];
                    nn = comb(alpha.val() * es, nn, -beta.val() * ew, a[s as int], m as int);
                    let d_old = d;
                    let ew_old = ew;
                    let av = alpha.val();
                    assert(av != 0) by {
                        assert(bi[s as int][pi[s as int]] != 0);
                    }
                    assert(es != 0);
                    d = av * es * d_old;
                    ew = ew_old * es;
                    assert(d != 0 && ew != 0) by (nonlinear_arith)
                        requires
                            d == av * es * d_old,
                            ew == ew_old * es,
                            av != 0,
                            es != 0,
                            d_old != 0,
                            ew_old != 0,
                    ;
                    assert forall|u: int| 0 <= u < s + 1 implies nw[#[trigger] pi[u]] == 0 by {
                        let q = pi[u];
                        assert(0 <= q < n);
                        let (x, y, bv) = (w_old[q], b_row[q], beta.val());
                        assert(nw[q] == av * x - bv * y);
                        if u < s {
                            assert(bi[s as int][q] == 0);
                            assert(av * x - bv * y == 0) by (nonlinear_arith)
                                requires
                                    x == 0,
                                    y == 0,
                            ;
                        } else {
                            assert(q == p);
                            assert(av * x - bv * y == 0) by (nonlinear_arith)
                                requires
                                    x == bv,
                                    y == av,
                            ;
                        }
                    }
                }
            }
            s += 1;
        }
        // The first nonzero entry of the reduced row, if any.
        let mut k0: usize = 0;
        while k0 < n && w[k0].is_zero()
            invariant
                k0 <= n,
                w.len() == n,
                forall|cc: int| 0 <= cc < k0 ==> #[trigger] big_vals(w@)[cc] == 0,
            decreases n - k0,
        {
            k0 += 1;
        }
        if k0 == n {
            proof {
                assert forall|cc: int| 0 <= cc < n implies d * rows[i as int][cc] + #[trigger] lin(nn, rows, i as int, cc)
                    == 0 by {
                    let wc = big_vals(w@)[cc];
                    assert(wc == 0);
                    assert(ew * wc == 0) by (nonlinear_arith)
                        requires
                            wc == 0,
                    ;
                }
                let k2 = lemma_dependent_step(rows, m as int, n as int, i as int, bi, pi, a, e, k, den, d, nn);
                k = k2;
                den = den * d;
            }
        } else {
            let w2 = divide_content(&w);
            let ghost g = choose|g: int| scaled_by(w@, w2@, g);
            let ghost f = ew * g;
            proof {
                let (wv, wv2) = (big_vals(w@), big_vals(w2@));
                assert forall|cc: int| 0 <= cc < n implies f * wv2[cc] == d * rows[i as int][cc] + #[trigger] lin(
                    nn,
                    rows,
                    i as int,
                    cc,
                ) by {
                    assert(w@[cc].val() == g * w2@[cc].val());
                    let (x, y) = (wv[cc], wv2[cc]);
                    assert(f * y == ew * x) by (nonlinear_arith)
                        requires
                            f == ew * g,
                            x == g * y,
                    ;
                }
                assert forall|u: int| 0 <= u < bi.len() implies wv2[#[trigger] pi[u]] == 0 by {
                    let q = pi[u];
                    assert(w@[q].val() == g * w2@[q].val());
                    assert(wv[q] == 0);
                    let y = wv2[q];
                    assert(y == 0) by (nonlinear_arith)
                        requires
                            g * y == 0,
                            g >= 1,
                    ;
                }
                assert(wv2[k0 as int] != 0) by {
                    assert(w@[k0 as int].val() == g * w2@[k0 as int].val());
                }
                assert(f != 0) by (nonlinear_arith)
                    requires
                        f == ew * g,
                        ew != 0,
                        g >= 1,
                ;
                let res = lemma_independent_step(
                    rows,
                    m as int,
                    n as int,
                    i as int,
                    bi,
                    pi,
                    a,
                    e,
                    k,
                    den,
                    d,
                    nn,
                    wv2,
                    f,
                    k0 as int,
                );
                a = res.0;
                e = e.push(f);
                k = res.1;
                den = den * d;
            }
            let ghost wv = big_vals(w2@);
            basis.push(w2);
            pivots.push(k0);
            assert(big_rows(basis@) =~= bi.push(wv));
            assert(int_pivots(pivots@) =~= pi.push(k0 as int));
        }
        i += 1;
    }
    proof {
        lemma_rank_prefix_le(rows, n as int, m as int);
    }
    basis.len()
}

/// At most `i` of the first `i` rows raise the rank.
proof fn lemma_rank_prefix_le(rows: Seq<Seq<int>>, n: int, i: int)
    requires
        0 <= i,
    ensures
        rank_prefix(rows, n, i) <= i,
    decreases i,
{
    if i > 0 {
        lemma_rank_prefix_le(rows, n, i - 1);
    }
}

} // verus!

verus! {

/// Row `j` raises the rank: it is not a rational combination of the rows
/// before it. The rank counts these rows.
pub open spec fn raises_rank(rows: Seq<Seq<int>>, n: int, j: int) -> bool {
    !in_span(rows, j, rows[j], n)
}

/// The rows that raise the rank are linearly independent: an integer
/// combination of them that vanishes in every coordinate has only zero
/// coefficients. So the rank is the size of a linearly independent set of
/// rows.
pub proof fn lemma_rank_rows_independent(rows: Seq<Seq<int>>, n: int, c: Seq<int>)
    requires
        forall|t: int| 0 <= t < rows.len() && !raises_rank(rows, n, t) ==> c[t] == 0,
        forall|k: int| 0 <= k < n ==> #[trigger] lin(c, rows, rows.len() as int, k) == 0,
    ensures
        forall|t: int| 0 <= t < rows.len() ==> c[t] == 0,
{
    lemma_rank_rows_independent_upto(rows, n, c, rows.len() as int);
}

proof fn lemma_rank_rows_independent_upto(rows: Seq<Seq<int>>, n: int, c: Seq<int>, cnt: int)
    requires
        0 <= cnt <= rows.len(),
        forall|t: int| 0 <= t < cnt && !raises_rank(rows, n, t) ==> c[t] == 0,
        forall|k: int| 0 <= k < n ==> #[trigger] lin(c, rows, cnt, k) == 0,
    ensures
        forall|t: int| 0 <= t < cnt ==> c[t] == 0,
    decreases cnt,
{
    if cnt > 0 {
        let j = cnt - 1;
        if c[j] != 0 {
            let neg = comb(-1, c, 0, c, cnt);
            assert forall|k: int| 0 <= k < n implies c[j] * rows[j][k] == #[trigger] lin(neg, rows, j, k) by {
                lemma_lin_comb(-1, c, 0, c, cnt, rows, j, k);
                assert(lin(c, rows, cnt, k) == 0);
            }
            assert(span_witness(rows, j, rows[j], n, c[j], neg));
            assert(false);
        }
        assert forall|k: int| 0 <= k < n implies #[trigger] lin(c, rows, j, k) == 0 by {
            assert(lin(c, rows, cnt, k) == 0);
            assert(c[j] * rows[j][k] == 0) by (nonlinear_arith)
                requires
                    c[j] == 0,
            ;
        }
        lemma_rank_rows_independent_upto(rows, n, c, j);
    }
}

} // verus!
