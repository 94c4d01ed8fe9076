//! Tropical linear algebra: permutation enumeration.
//!
//! The tropical determinant is the maximum, over all permutations σ, of
//! `Σ_i A[i][σ(i)]`. Its permutations are walked in lexicographic order by
//! `next_permutation`, whose contract states that it moves to the least
//! permutation of the same elements that is lexicographically greater.
use vstd::prelude::*;
use vstd::seq_lib::*;

verus! {

broadcast use group_to_multiset_ensures;

/// `a` is lexicographically less than `b`, and `p` is the first index at
/// which they differ.
pub open spec fn lex_less_at(a: Seq<usize>, b: Seq<usize>, p: int) -> bool {
    &&& a.len() == b.len()
    &&& 0 <= p < a.len()
    &&& forall|i: int| 0 <= i < p ==> a[i] == b[i]
    &&& a[p] < b[p]
}

/// Strict lexicographic order on sequences of the same length.
pub open spec fn lex_less(a: Seq<usize>, b: Seq<usize>) -> bool {
    exists|p: int| lex_less_at(a, b, p)
}

/// `a` and `b` hold the same elements, each as many times.
pub open spec fn is_permutation_of(a: Seq<usize>, b: Seq<usize>) -> bool {
    a.to_multiset() == b.to_multiset()
}

/// No element is smaller than the one after it: `s` is the lexicographically
/// greatest arrangement of its elements.
pub open spec fn is_last_permutation(s: Seq<usize>) -> bool {
    forall|i: int| 0 <= i && i + 1 < s.len() ==> s[i] >= #[trigger] s[i + 1]
}

/// `t` is the least arrangement of the elements of `s` that is
/// lexicographically greater than `s`.
pub open spec fn is_next_permutation(s: Seq<usize>, t: Seq<usize>) -> bool {
    &&& t.len() == s.len()
    &&& is_permutation_of(t, s)
    &&& lex_less(s, t)
    &&& forall|u: Seq<usize>|
        #![trigger is_permutation_of(u, s), lex_less(s, u)]
        u.len() == s.len() && is_permutation_of(u, s) && lex_less(s, u) ==> !lex_less(u, t)
}

/// Swapping two positions keeps the elements of a sequence.
proof fn lemma_swap_multiset(v: Seq<usize>, i: int, j: int)
    requires
        0 <= i < j < v.len(),
    ensures
        v.update(i, v[j]).update(j, v[i]).to_multiset() == v.to_multiset(),
{
    broadcast use lemma_multiset_commutative;

    let w = v.update(i, v[j]).update(j, v[i]);
    let a = v.take(i);
    let b = v.subrange(i + 1, j);
    let c = v.skip(j + 1);
    assert(v =~= a + seq![v[i]] + b + seq![v[j]] + c);
    assert(w =~= a + seq![v[j]] + b + seq![v[i]] + c);
    assert(w.to_multiset() =~= v.to_multiset());
}

/// Two arrangements of the same elements that agree before `p` hold the same
/// elements from `p` on; so the element of `u` at `p` occurs in `v` at or
/// after `p`.
proof fn lemma_common_prefix_member(u: Seq<usize>, v: Seq<usize>, p: int) -> (j: int)
    requires
        u.len() == v.len(),
        0 <= p < u.len(),
        is_permutation_of(u, v),
        forall|i: int| 0 <= i < p ==> u[i] == v[i],
    ensures
        p <= j < v.len(),
        v[j] == u[p],
{
    broadcast use lemma_multiset_commutative;

    assert(u.take(p) =~= v.take(p));
    assert(u =~= u.take(p) + u.skip(p));
    assert(v =~= v.take(p) + v.skip(p));
    let x = u[p];
    assert(u.to_multiset().count(x) == u.take(p).to_multiset().count(x) + u.skip(p).to_multiset().count(x));
    assert(v.to_multiset().count(x) == v.take(p).to_multiset().count(x) + v.skip(p).to_multiset().count(x));
    assert(u.skip(p)[0] == x);
    assert(u.skip(p).contains(x));
    assert(v.skip(p).to_multiset().count(x) > 0);
    assert(v.skip(p).contains(x));
    let k = choose|k: int| 0 <= k < v.skip(p).len() && v.skip(p)[k] == x;
    p + k
}

/// Strict lexicographic order is asymmetric.
proof fn lemma_lex_less_asymmetric(a: Seq<usize>, b: Seq<usize>)
    requires
        lex_less(a, b),
    ensures
        !lex_less(b, a),
{
    let p = choose|p: int| lex_less_at(a, b, p);
    if lex_less(b, a) {
        let q = choose|q: int| lex_less_at(b, a, q);
        if p < q {
            assert(b[p] == a[p]);
        } else if q < p {
            assert(a[q] == b[q]);
        }
    }
}

/// The pivot facts that make `t` the next permutation of `s`: `k` is the last
/// ascent of `s`, `l` the last position after `k` whose element exceeds
/// `s[k]`, and `t` keeps the prefix before `k`, puts `s[l]` at `k` and
/// arranges the rest in non-decreasing order.
proof fn lemma_next_permutation_least(s: Seq<usize>, t: Seq<usize>, k: int, l: int)
    requires
        0 <= k < l < s.len(),
        s[k] < s[l],
        forall|a: int, b: int| k < a <= b < s.len() ==> s[a] >= s[b],
        forall|j: int| l < j < s.len() ==> s[j] <= s[k],
        t.len() == s.len(),
        is_permutation_of(t, s),
        forall|i: int| 0 <= i < k ==> t[i] == s[i],
        t[k] == s[l],
        forall|a: int, b: int| k < a <= b < t.len() ==> t[a] <= t[b],
    ensures
        is_next_permutation(s, t),
{
    assert(lex_less_at(s, t, k));
    assert forall|u: Seq<usize>|
        #![trigger is_permutation_of(u, s), lex_less(s, u)]
        u.len() == s.len() && is_permutation_of(u, s) && lex_less(s, u) implies !lex_less(u, t) by {
        let p = choose|p: int| lex_less_at(s, u, p);
        if p < k {
            assert(lex_less_at(t, u, p));
            lemma_lex_less_asymmetric(t, u);
        } else if p > k {
            // The suffix of s from p is non-increasing, so no arrangement of it
            // can start with an element above s[p].
            let j = lemma_common_prefix_member(u, s, p);
            assert(s[p] >= s[j]);
        } else {
            let j = lemma_common_prefix_member(u, s, k);
            assert(j != k);
            // u[k] exceeds s[k], so it sits at or before l, and is at least s[l].
            assert(j <= l);
            assert(u[k] >= t[k]);
            if u[k] > t[k] {
                assert(lex_less_at(t, u, k));
                lemma_lex_less_asymmetric(t, u);
            } else {
                if lex_less(u, t) {
                    let q = choose|q: int| lex_less_at(u, t, q);
                    assert(q > k);
                    assert(is_permutation_of(u, t));
                    // t is non-decreasing after k, so u cannot undercut it at q.
                    let m = lemma_common_prefix_member(u, t, q);
                    assert(t[q] <= t[m]);
                }
            }
        }
    }
}

/// Rearranges `perm` into the next permutation of its elements in
/// lexicographic order and returns `true`; when `perm` is already the last
/// (non-increasing) arrangement, leaves it unchanged and returns `false`.
pub fn next_permutation(perm: &mut Vec<usize>) -> (advanced: bool)
    ensures
        advanced == !is_last_permutation(old(perm)@),
        !advanced ==> final(perm)@ == old(perm)@,
        advanced ==> is_next_permutation(old(perm)@, final(perm)@),
{
    let ghost s = perm@;
    let n = perm.len();
    if n < 2 {
        return false;
    }
    // The last ascent: the largest k with perm[k] < perm[k + 1].
    let mut k = n - 2;
    while k > 0 && perm[k] >= perm[k + 1]
        invariant
            n == perm.len(),
            perm@ == s,
            2 <= n,
            k <= n - 2,
            forall|a: int, b: int| k < a <= b < n ==> s[a] >= s[b],
        decreases k,
    {
        k -= 1;
    }
    if perm[k] >= perm[k + 1] {
        assert forall|i: int| 0 <= i && i + 1 < s.len() implies s[i] >= #[trigger] s[i + 1] by {
            if i > 0 {
                assert(s[i] >= s[i + 1]);
            }
        }
        return false;
    }
    assert(!is_last_permutation(s)) by {
        assert(s[k as int] < s[k as int + 1]);
    }
    // The last position after k whose element exceeds perm[k].
    let mut l = n - 1;
    while perm[k] >= perm[l]
        invariant
            n == perm.len(),
            perm@ == s,
            k + 1 < n,
            k < l < n,
            s[k as int] < s[k as int + 1],
            forall|j: int| l < j < n ==> s[j] <= s[k as int],
        decreases l,
    {
        l -= 1;
    }
    let a = perm[k];
    let b = perm[l];
    perm[k] = b;
    perm[l] = a;
    proof {
        lemma_swap_multiset(s, k as int, l as int);
    }
    let ghost w = perm@;
    assert(w == s.update(k as int, s[l as int]).update(l as int, s[k as int]));
    // The suffix after k is non-increasing; reversing it makes it non-decreasing.
    assert forall|x: int, y: int| k < x <= y < n implies w[x] >= w[y] by {
        if x == l {
            assert(w[x] == s[k as int]);
        } else if y == l {
            assert(w[y] == s[k as int]);
            assert(s[x] >= s[l as int]);
        }
    }
    let mut i = k + 1;
    let mut j = n - 1;
    while i < j
        invariant
            n == perm.len(),
            k < i <= n,
            k < j < n,
            i - (k + 1) == (n - 1) - j,
            i <= j + 1,
            w.len() == n,
            perm@.to_multiset() == s.to_multiset(),
            forall|x: int| 0 <= x <= k ==> perm@[x] == w[x],
            forall|x: int| k < x < i ==> perm@[x] == w[n + k - x],
            forall|x: int| j < x < n ==> perm@[x] == w[n + k - x],
            forall|x: int| i <= x <= j ==> perm@[x] == w[x],
        decreases j + 1 - i,
    {
        let x = perm[i];
        let y = perm[j];
        proof {
            lemma_swap_multiset(perm@, i as int, j as int);
        }
        perm[i] = y;
        perm[j] = x;
        i += 1;
        j -= 1;
    }
    proof {
        let t = perm@;
        assert forall|x: int| 0 <= x < k implies t[x] == s[x] by {
            assert(t[x] == w[x]);
        }
        assert(t[k as int] == w[k as int]);
        assert forall|x: int, y: int| k < x <= y < t.len() implies t[x] <= t[y] by {
            assert(t[x] == w[n + k - x]);
            assert(t[y] == w[n + k - y]);
        }
        lemma_next_permutation_least(s, t, k as int, l as int);
    }
    true
}

} // verus!

verus! {

/// Each element is at most the ones after it.
pub open spec fn is_ascending(s: Seq<usize>) -> bool {
    forall|i: int, j: int| 0 <= i <= j < s.len() ==> s[i] <= s[j]
}

/// Strict lexicographic order is transitive.
proof fn lemma_lex_less_transitive(a: Seq<usize>, b: Seq<usize>, c: Seq<usize>)
    requires
        lex_less(a, b),
        lex_less(b, c),
    ensures
        lex_less(a, c),
{
    let p = choose|p: int| lex_less_at(a, b, p);
    let q = choose|q: int| lex_less_at(b, c, q);
    if p <= q {
        assert(lex_less_at(a, c, p));
    } else {
        assert(lex_less_at(a, c, q));
    }
}

/// Two sequences of the same length are equal or ordered one way or the
/// other.
proof fn lemma_lex_trichotomy(a: Seq<usize>, b: Seq<usize>)
    requires
        a.len() == b.len(),
    ensures
        a == b || lex_less(a, b) || lex_less(b, a),
{
    lemma_lex_trichotomy_from(a, b, 0);
}

proof fn lemma_lex_trichotomy_from(a: Seq<usize>, b: Seq<usize>, p: int)
    requires
        a.len() == b.len(),
        0 <= p <= a.len(),
        forall|i: int| 0 <= i < p ==> a[i] == b[i],
    ensures
        a == b || lex_less(a, b) || lex_less(b, a),
    decreases a.len() - p,
{
    if p == a.len() {
        assert(a =~= b);
    } else if a[p] < b[p] {
        assert(lex_less_at(a, b, p));
    } else if b[p] < a[p] {
        assert(lex_less_at(b, a, p));
    } else {
        lemma_lex_trichotomy_from(a, b, p + 1);
    }
}

/// The ascending arrangement is the least arrangement of its elements.
proof fn lemma_ascending_is_least(s: Seq<usize>, u: Seq<usize>)
    requires
        is_ascending(s),
        u.len() == s.len(),
        is_permutation_of(u, s),
    ensures
        u == s || lex_less(s, u),
{
    lemma_lex_trichotomy(s, u);
    if lex_less(u, s) {
        let p = choose|p: int| lex_less_at(u, s, p);
        let j = lemma_common_prefix_member(u, s, p);
        assert(s[p] <= s[j]);
    }
}

/// A sequence without ascent is non-increasing between any two positions.
proof fn lemma_last_is_non_increasing(s: Seq<usize>, i: int, j: int)
    requires
        is_last_permutation(s),
        0 <= i <= j < s.len(),
    ensures
        s[i] >= s[j],
    decreases j - i,
{
    if i < j {
        lemma_last_is_non_increasing(s, i + 1, j);
        assert(s[i] >= s[i + 1]);
    }
}

/// The last permutation is the greatest arrangement of its elements.
proof fn lemma_last_is_greatest(s: Seq<usize>, u: Seq<usize>)
    requires
        is_last_permutation(s),
        u.len() == s.len(),
        is_permutation_of(u, s),
    ensures
        u == s || lex_less(u, s),
{
    lemma_lex_trichotomy(s, u);
    if lex_less(s, u) {
        let p = choose|p: int| lex_less_at(s, u, p);
        let j = lemma_common_prefix_member(u, s, p);
        lemma_last_is_non_increasing(s, p, j);
    }
}

/// A walk of `next_permutation` steps from the ascending arrangement to the
/// last one visits every arrangement of the elements, each exactly once: if
/// `run` starts ascending, ends at the last permutation and each entry is the
/// next permutation of the one before, then the entries are pairwise distinct
/// and every arrangement `u` of `run[0]` is one of them. Enumerating
/// `0..n` this way gives the permutations over which the tropical
/// determinant maximizes.
pub proof fn lemma_permutation_walk_is_complete(run: Seq<Seq<usize>>, u: Seq<usize>)
    requires
        run.len() > 0,
        is_ascending(run[0]),
        is_last_permutation(run.last()),
        forall|i: int| 0 <= i < run.len() - 1 ==> is_next_permutation(#[trigger] run[i], run[i + 1]),
        u.len() == run[0].len(),
        is_permutation_of(u, run[0]),
    ensures
        exists|i: int| 0 <= i < run.len() && run[i] == u,
        forall|i: int, j: int| 0 <= i < j < run.len() ==> run[i] != run[j],
{
    let k = run.len() - 1;
    // Every entry is an arrangement of run[0], and the entries increase.
    assert forall|i: int| 0 <= i < run.len() implies (#[trigger] run[i]).len() == run[0].len() && is_permutation_of(run[i], run[0]) by {
        lemma_run_permutations(run, i);
    }
    assert forall|i: int, j: int| 0 <= i < j < run.len() implies run[i] != run[j] by {
        lemma_run_increasing(run, i, j);
        if run[i] == run[j] {
            lemma_lex_less_asymmetric(run[i], run[j]);
        }
    }
    // Find u: the run never overtakes it.
    lemma_ascending_is_least(run[0], u);
    lemma_run_reaches(run, u, k);
    if !exists|i: int| 0 <= i < run.len() && run[i] == u {
        assert(lex_less(run[k], u));
        lemma_last_is_greatest(run[k], u);
        lemma_lex_less_asymmetric(run[k], u);
    }
}

proof fn lemma_run_permutations(run: Seq<Seq<usize>>, i: int)
    requires
        0 <= i < run.len(),
        forall|t: int| 0 <= t < run.len() - 1 ==> is_next_permutation(#[trigger] run[t], run[t + 1]),
    ensures
        run[i].len() == run[0].len(),
        is_permutation_of(run[i], run[0]),
    decreases i,
{
    if i > 0 {
        lemma_run_permutations(run, i - 1);
        assert(is_next_permutation(run[i - 1], run[i]));
    }
}

proof fn lemma_run_increasing(run: Seq<Seq<usize>>, i: int, j: int)
    requires
        0 <= i < j < run.len(),
        forall|t: int| 0 <= t < run.len() - 1 ==> is_next_permutation(#[trigger] run[t], run[t + 1]),
    ensures
        lex_less(run[i], run[j]),
    decreases j - i,
{
    assert(is_next_permutation(run[j - 1], run[j]));
    if i < j - 1 {
        lemma_run_increasing(run, i, j - 1);
        lemma_lex_less_transitive(run[i], run[j - 1], run[j]);
    }
}

/// Up to entry `i`, either `u` has been met or every entry so far is below
/// it.
proof fn lemma_run_reaches(run: Seq<Seq<usize>>, u: Seq<usize>, i: int)
    requires
        0 <= i < run.len(),
        forall|t: int| 0 <= t < run.len() - 1 ==> is_next_permutation(#[trigger] run[t], run[t + 1]),
        forall|t: int| 0 <= t < run.len() ==> (#[trigger] run[t]).len() == run[0].len() && is_permutation_of(run[t], run[0]),
        u.len() == run[0].len(),
        is_permutation_of(u, run[0]),
        u == run[0] || lex_less(run[0], u),
    ensures
        (exists|t: int| 0 <= t <= i && run[t] == u) || lex_less(run[i], u),
    decreases i,
{
    if i > 0 {
        lemma_run_reaches(run, u, i - 1);
        if lex_less(run[i - 1], u) && !exists|t: int| 0 <= t <= i - 1 && run[t] == u {
            let s = run[i - 1];
            assert(is_next_permutation(s, run[i]));
            assert(is_permutation_of(u, s));
            assert(!lex_less(u, run[i]));
            lemma_lex_trichotomy(u, run[i]);
            if u == run[i] {
                assert(run[i] == u);
            }
        }
    }
}

} // verus!
