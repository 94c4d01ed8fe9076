//! Integers of any size, for exact elimination: a sign and a magnitude
//! stored as little-endian limbs in base `2^32`.
use vstd::prelude::*;

verus! {

/// `(2^32)^i`: the weight of limb `i`.
pub open spec fn bpow(i: nat) -> int
    decreases i,
{
    if i == 0 {
        1
    } else {
        0x1_0000_0000 * bpow((i - 1) as nat)
    }
}

/// Limb `k` of `s`, zero past its end.
pub open spec fn digit(s: Seq<u32>, k: int) -> int {
    if 0 <= k < s.len() {
        s[k] as int
    } else {
        0
    }
}

/// The value of the first `i` limbs of `s`.
pub open spec fn prefix_val(s: Seq<u32>, i: nat) -> int
    decreases i,
{
    if i == 0 {
        0
    } else {
        prefix_val(s, (i - 1) as nat) + digit(s, i - 1) * bpow((i - 1) as nat)
    }
}

/// The value of a magnitude.
pub open spec fn mag(s: Seq<u32>) -> int {
    prefix_val(s, s.len())
}

/// `m` with a sign.
pub open spec fn signed(neg: bool, m: int) -> int {
    if neg {
        -m
    } else {
        m
    }
}

proof fn lemma_bpow_pos(i: nat)
    ensures
        bpow(i) >= 1,
    decreases i,
{
    if i > 0 {
        lemma_bpow_pos((i - 1) as nat);
        let p = bpow((i - 1) as nat);
        assert(0x1_0000_0000 * p >= 1) by (nonlinear_arith)
            requires
                p >= 1,
        ;
    }
}

proof fn lemma_bpow_add(i: nat, j: nat)
    ensures
        bpow(i + j) == bpow(i) * bpow(j),
    decreases j,
{
    if j > 0 {
        lemma_bpow_add(i, (j - 1) as nat);
        let (x, y) = (bpow(i), bpow((j - 1) as nat));
        assert(bpow((i + j) as nat) == 0x1_0000_0000 * bpow((i + (j - 1)) as nat));
        assert(0x1_0000_0000 * (x * y) == x * (0x1_0000_0000 * y)) by (nonlinear_arith);
    }
}

/// `0 <= prefix_val(s, i) < bpow(i)`.
proof fn lemma_prefix_bound(s: Seq<u32>, i: nat)
    ensures
        0 <= prefix_val(s, i) < bpow(i),
    decreases i,
{
    if i > 0 {
        lemma_prefix_bound(s, (i - 1) as nat);
        lemma_bpow_pos((i - 1) as nat);
        let (v, d, p) = (prefix_val(s, (i - 1) as nat), digit(s, i - 1), bpow((i - 1) as nat));
        assert(0 <= v + d * p < 0x1_0000_0000 * p) by (nonlinear_arith)
            requires
                0 <= v < p,
                0 <= d <= 0xFFFF_FFFF,
        ;
    }
}

/// Limbs past the end add nothing.
proof fn lemma_prefix_beyond(s: Seq<u32>, i: nat)
    requires
        i >= s.len(),
    ensures
        prefix_val(s, i) == mag(s),
    decreases i,
{
    if i > s.len() {
        lemma_prefix_beyond(s, (i - 1) as nat);
    }
}

/// Two sequences with the same first `i` limbs have the same prefix value.
proof fn lemma_prefix_agree(s: Seq<u32>, t: Seq<u32>, i: nat)
    requires
        forall|k: int| 0 <= k < i ==> digit(s, k) == digit(t, k),
    ensures
        prefix_val(s, i) == prefix_val(t, i),
    decreases i,
{
    if i > 0 {
        lemma_prefix_agree(s, t, (i - 1) as nat);
    }
}

/// Zero limbs give zero.
proof fn lemma_prefix_zero(s: Seq<u32>, i: nat)
    requires
        forall|k: int| 0 <= k < i ==> digit(s, k) == 0,
    ensures
        prefix_val(s, i) == 0,
    decreases i,
{
    if i > 0 {
        lemma_prefix_zero(s, (i - 1) as nat);
    }
}

/// A nonzero limb below `i` makes the prefix value positive.
proof fn lemma_prefix_pos(s: Seq<u32>, i: nat, k: int)
    requires
        0 <= k < i,
        digit(s, k) != 0,
    ensures
        prefix_val(s, i) > 0,
    decreases i,
{
    let (v, d, p) = (prefix_val(s, (i - 1) as nat), digit(s, i - 1), bpow((i - 1) as nat));
    lemma_prefix_bound(s, (i - 1) as nat);
    lemma_bpow_pos((i - 1) as nat);
    assert(d * p >= 0) by (nonlinear_arith)
        requires
            d >= 0,
            p >= 1,
    ;
    if k < i - 1 {
        lemma_prefix_pos(s, (i - 1) as nat, k);
    } else {
        assert(d * p >= 1) by (nonlinear_arith)
            requires
                d >= 1,
                p >= 1,
        ;
    }
}

/// Limbs `z = [0; j] ++ t` have value `mag(t) * bpow(j)`, prefix by prefix.
proof fn lemma_shift(z: Seq<u32>, t: Seq<u32>, j: nat, k: nat)
    requires
        forall|q: int| 0 <= q < j ==> digit(z, q) == 0,
        forall|q: int| 0 <= q ==> digit(z, j + q) == #[trigger] digit(t, q),
    ensures
        prefix_val(z, j + k) == prefix_val(t, k) * bpow(j),
    decreases k,
{
    if k == 0 {
        lemma_prefix_zero(z, j);
    } else {
        lemma_shift(z, t, j, (k - 1) as nat);
        lemma_bpow_add(j, (k - 1) as nat);
        assert(digit(z, j + (k - 1)) == digit(t, k - 1));
        assert(prefix_val(z, (j + k) as nat) == prefix_val(z, (j + k - 1) as nat) + digit(z, j + k - 1) * bpow(
            (j + k - 1) as nat,
        ));
        let (v, d, pj, pk) = (prefix_val(t, (k - 1) as nat), digit(t, k - 1), bpow(j), bpow((k - 1) as nat));
        assert(v * pj + d * (pj * pk) == (v + d * pk) * pj) by (nonlinear_arith);
    }
}

/// Unfolds one limb of a prefix value.
proof fn lemma_prefix_step(s: Seq<u32>, i: nat)
    ensures
        prefix_val(s, i + 1) == prefix_val(s, i) + digit(s, i as int) * bpow(i),
        bpow(i + 1) == 0x1_0000_0000 * bpow(i),
{
}

/// A sequence extended by one limb keeps its earlier prefix values.
proof fn lemma_push_prefix(s: Seq<u32>, x: u32)
    ensures
        prefix_val(s.push(x), s.len()) == prefix_val(s, s.len()),
        digit(s.push(x), s.len() as int) == x as int,
{
    assert forall|k: int| 0 <= k < s.len() implies digit(s, k) == digit(s.push(x), k) by {}
    lemma_prefix_agree(s, s.push(x), s.len());
}

/// Limb `k` of `a`, zero past its end.
fn limb_at(a: &Vec<u32>, k: usize) -> (d: u64)
    ensures
        d == digit(a@, k as int),
        d <= 0xFFFF_FFFF,
{
    if k < a.len() {
        a[k] as u64
    } else {
        0
    }
}

/// `a + b`.
fn mag_add(a: &Vec<u32>, b: &Vec<u32>) -> (r: Vec<u32>)
    ensures
        mag(r@) == mag(a@) + mag(b@),
{
    let n = if a.len() >= b.len() {
        a.len()
    } else {
        b.len()
    };
    let mut out: Vec<u32> = Vec::new();
    let mut carry: u64 = 0;
    let mut i: usize = 0;
    while i < n
        invariant
            i <= n,
            n >= a.len(),
            n >= b.len(),
            out.len() == i,
            carry <= 1,
            prefix_val(out@, i as nat) + carry * bpow(i as nat) == prefix_val(a@, i as nat) + prefix_val(b@, i as nat),
        decreases n - i,
    {
        let x = limb_at(a, i);
        let y = limb_at(b, i);
        let s = x + y + carry;
        let lo = s % 0x1_0000_0000;
        let hi = s / 0x1_0000_0000;
        let ghost old_out = out@;
        out.push(lo as u32);
        proof {
            lemma_push_prefix(old_out, lo as u32);
            lemma_prefix_step(out@, i as nat);
            lemma_prefix_step(a@, i as nat);
            lemma_prefix_step(b@, i as nat);
            let p = bpow(i as nat);
            let (po, pa, pb) = (prefix_val(old_out, i as nat), prefix_val(a@, i as nat), prefix_val(b@, i as nat));
            assert(s == hi * 0x1_0000_0000 + lo);
            assert((po + lo * p) + hi * (0x1_0000_0000 * p) == (pa + x * p) + (pb + y * p)) by (nonlinear_arith)
                requires
                    po + carry * p == pa + pb,
                    s == x + y + carry,
                    s == hi * 0x1_0000_0000 + lo,
            ;
        }
        carry = hi;
        i += 1;
    }
    let ghost old_out = out@;
    out.push(carry as u32);
    proof {
        lemma_push_prefix(old_out, carry as u32);
        lemma_prefix_step(out@, n as nat);
        lemma_prefix_beyond(out@, (n + 1) as nat);
        lemma_prefix_beyond(a@, n as nat);
        lemma_prefix_beyond(b@, n as nat);
    }
    out
}

/// `a - b` in `n = max(|a|, |b|)` limbs, with the borrow out of the top
/// limb: the limbs hold `a - b + borrow * bpow(n)`.
fn mag_sub(a: &Vec<u32>, b: &Vec<u32>) -> (r: (Vec<u32>, bool))
    ensures
        r.0.len() >= a.len(),
        r.0.len() >= b.len(),
        mag(r.0@) - (if r.1 {
            bpow(r.0.len() as nat)
        } else {
            0
        }) == mag(a@) - mag(b@),
{
    let n = if a.len() >= b.len() {
        a.len()
    } else {
        b.len()
    };
    let mut out: Vec<u32> = Vec::new();
    let mut borrow: i64 = 0;
    let mut i: usize = 0;
    while i < n
        invariant
            i <= n,
            n >= a.len(),
            n >= b.len(),
            out.len() == i,
            0 <= borrow <= 1,
            prefix_val(out@, i as nat) - borrow * bpow(i as nat) == prefix_val(a@, i as nat) - prefix_val(b@, i as nat),
        decreases n - i,
    {
        let x = limb_at(a, i) as i64;
        let y = limb_at(b, i) as i64;
        let d = x - y - borrow;
        let ghost old_out = out@;
        let ghost old_borrow = borrow;
        let limb: i64 = if d < 0 {
            borrow = 1;
            d + 0x1_0000_0000
        } else {
            borrow = 0;
            d
        };
        out.push(limb as u32);
        proof {
            lemma_push_prefix(old_out, limb as u32);
            lemma_prefix_step(out@, i as nat);
            lemma_prefix_step(a@, i as nat);
            lemma_prefix_step(b@, i as nat);
            let p = bpow(i as nat);
            let (po, pa, pb) = (prefix_val(old_out, i as nat), prefix_val(a@, i as nat), prefix_val(b@, i as nat));
            assert(limb == d + borrow * 0x1_0000_0000);
            assert((po + limb * p) - borrow * (0x1_0000_0000 * p) == (pa + x * p) - (pb + y * p)) by (nonlinear_arith)
                requires
                    po - old_borrow * p == pa - pb,
                    d == x - y - old_borrow,
                    limb == d + borrow * 0x1_0000_0000,
            ;
        }
        i += 1;
    }
    proof {
        lemma_prefix_beyond(a@, n as nat);
        lemma_prefix_beyond(b@, n as nat);
    }
    (out, borrow == 1)
}

/// `a * m` for a single limb `m`.
fn mag_mul_limb(a: &Vec<u32>, m: u32) -> (r: Vec<u32>)
    ensures
        mag(r@) == mag(a@) * m,
{
    let n = a.len();
    let mut out: Vec<u32> = Vec::new();
    let mut carry: u64 = 0;
    let mut i: usize = 0;
    while i < n
        invariant
            i <= n,
            n == a.len(),
            out.len() == i,
            carry <= 0xFFFF_FFFF,
            prefix_val(out@, i as nat) + carry * bpow(i as nat) == prefix_val(a@, i as nat) * m,
        decreases n - i,
    {
        let x = a[i] as u64;
        let y = m as u64;
        assert(x * y <= 0xFFFF_FFFE_0000_0001) by (nonlinear_arith)
            requires
                x <= 0xFFFF_FFFF,
                y <= 0xFFFF_FFFF,
        ;
        let s = x * y + carry;
        let lo = s % 0x1_0000_0000;
        let hi = s / 0x1_0000_0000;
        let ghost old_out = out@;
        out.push(lo as u32);
        proof {
            lemma_push_prefix(old_out, lo as u32);
            lemma_prefix_step(out@, i as nat);
            lemma_prefix_step(a@, i as nat);
            let p = bpow(i as nat);
            let (po, pa) = (prefix_val(old_out, i as nat), prefix_val(a@, i as nat));
            assert(s == hi * 0x1_0000_0000 + lo);
            assert(digit(a@, i as int) == x);
            assert((po + lo * p) + hi * (0x1_0000_0000 * p) == (pa + x * p) * y) by (nonlinear_arith)
                requires
                    po + carry * p == pa * y,
                    s == x * y + carry,
                    s == hi * 0x1_0000_0000 + lo,
            ;
        }
        carry = hi;
        i += 1;
    }
    let ghost old_out = out@;
    out.push(carry as u32);
    proof {
        lemma_push_prefix(old_out, carry as u32);
        lemma_prefix_step(out@, n as nat);
    }
    out
}

/// `[0; j] ++ t`: the limbs of `t` moved up by `j` places.
fn shift_limbs(t: &Vec<u32>, j: usize) -> (r: Vec<u32>)
    ensures
        mag(r@) == mag(t@) * bpow(j as nat),
{
    let mut out: Vec<u32> = Vec::new();
    let mut q: usize = 0;
    while q < j
        invariant
            q <= j,
            out.len() == q,
            forall|k: int| 0 <= k < q ==> out@[k] == 0,
        decreases j - q,
    {
        out.push(0);
        q += 1;
    }
    let mut q: usize = 0;
    while q < t.len()
        invariant
            q <= t.len(),
            out.len() == j + q,
            forall|k: int| 0 <= k < j ==> out@[k] == 0,
            forall|k: int| 0 <= k < q ==> out@[j + k] == t@[k],
        decreases t.len() - q,
    {
        out.push(t[q]);
        q += 1;
    }
    proof {
        assert forall|k: int| 0 <= k < j implies digit(out@, k) == 0 by {}
        assert forall|k: int| 0 <= k implies digit(out@, j + k) == #[trigger] digit(t@, k) by {}
        lemma_shift(out@, t@, j as nat, t.len() as nat);
    }
    out
}

/// `a * b`.
fn mag_mul(a: &Vec<u32>, b: &Vec<u32>) -> (r: Vec<u32>)
    ensures
        mag(r@) == mag(a@) * mag(b@),
{
    let mut acc: Vec<u32> = Vec::new();
    let mut j: usize = 0;
    while j < b.len()
        invariant
            j <= b.len(),
            mag(acc@) == mag(a@) * prefix_val(b@, j as nat),
        decreases b.len() - j,
    {
        let t = mag_mul_limb(a, b[j]);
        let sh = shift_limbs(&t, j);
        let sum = mag_add(&acc, &sh);
        proof {
            lemma_prefix_step(b@, j as nat);
            let (ma, pb, d, p) = (mag(a@), prefix_val(b@, j as nat), b@[j as int] as int, bpow(j as nat));
            assert(digit(b@, j as int) == d);
            assert(ma * pb + (ma * d) * p == ma * (pb + d * p)) by (nonlinear_arith);
        }
        acc = trim(sum);
        j += 1;
    }
    acc
}

/// `v` without its zero top limbs.
fn trim(v: Vec<u32>) -> (r: Vec<u32>)
    ensures
        mag(r@) == mag(v@),
{
    let mut v = v;
    let ghost orig = v@;
    while v.len() > 0 && v[v.len() - 1] == 0
        invariant
            mag(v@) == mag(orig),
        decreases v.len(),
    {
        let ghost before = v@;
        v.pop();
        proof {
            let l = (before.len() - 1) as nat;
            assert(v@ =~= before.drop_last());
            assert forall|k: int| 0 <= k < l implies digit(before, k) == digit(v@, k) by {}
            lemma_prefix_agree(before, v@, l);
            lemma_prefix_step(before, l);
            assert(digit(before, l as int) == 0);
            assert(mag(before) == prefix_val(before, l + 1));
            let (d, p) = (digit(before, l as int), bpow(l));
            assert(d * p == 0) by (nonlinear_arith)
                requires
                    d == 0,
            ;
            assert(mag(v@) == prefix_val(v@, l));
        }
    }
    v
}

/// Whether a magnitude is zero.
fn mag_is_zero(a: &Vec<u32>) -> (z: bool)
    ensures
        z == (mag(a@) == 0),
{
    let mut i: usize = 0;
    while i < a.len()
        invariant
            i <= a.len(),
            forall|k: int| 0 <= k < i ==> a@[k] == 0,
        decreases a.len() - i,
    {
        if a[i] != 0 {
            proof {
                lemma_prefix_pos(a@, a.len() as nat, i as int);
            }
            return false;
        }
        i += 1;
    }
    proof {
        assert forall|k: int| 0 <= k < a.len() implies digit(a@, k) == 0 by {}
        lemma_prefix_zero(a@, a.len() as nat);
    }
    true
}

/// An integer of any size.
pub struct BigInt {
    pub neg: bool,
    pub limbs: Vec<u32>,
}

impl BigInt {
    /// The value.
    pub open spec fn val(&self) -> int {
        signed(self.neg, mag(self.limbs@))
    }

    /// The integer `x`.
    pub fn from_i64(x: i64) -> (r: BigInt)
        ensures
            r.val() == x,
    {
        let u: u64 = if x < 0 {
            (0 - (x as i128)) as u64
        } else {
            x as u64
        };
        let lo = (u % 0x1_0000_0000) as u32;
        let hi = (u / 0x1_0000_0000) as u32;
        let mut limbs: Vec<u32> = Vec::new();
        limbs.push(lo);
        limbs.push(hi);
        proof {
            let s = limbs@;
            assert(digit(s, 0) == lo);
            assert(digit(s, 1) == hi);
            lemma_prefix_step(s, 0);
            lemma_prefix_step(s, 1);
            assert(mag(s) == lo + hi * 0x1_0000_0000);
        }
        BigInt { neg: x < 0, limbs }
    }

    /// Whether the value is zero.
    pub fn is_zero(&self) -> (z: bool)
        ensures
            z == (self.val() == 0),
    {
        mag_is_zero(&self.limbs)
    }

    /// A copy.
    pub fn copy(&self) -> (r: BigInt)
        ensures
            r.val() == self.val(),
    {
        let mut limbs: Vec<u32> = Vec::new();
        let mut i: usize = 0;
        while i < self.limbs.len()
            invariant
                i <= self.limbs.len(),
                limbs@ =~= self.limbs@.subrange(0, i as int),
            decreases self.limbs.len() - i,
        {
            limbs.push(self.limbs[i]);
            i += 1;
        }
        assert(limbs@ =~= self.limbs@);
        BigInt { neg: self.neg, limbs }
    }

    /// The product.
    pub fn times(&self, other: &BigInt) -> (r: BigInt)
        ensures
            r.val() == self.val() * other.val(),
    {
        let m = trim(mag_mul(&self.limbs, &other.limbs));
        proof {
            let (x, y) = (mag(self.limbs@), mag(other.limbs@));
            assert((-x) * (-y) == x * y) by (nonlinear_arith);
            assert((-x) * y == -(x * y)) by (nonlinear_arith);
            assert(x * (-y) == -(x * y)) by (nonlinear_arith);
        }
        BigInt { neg: self.neg != other.neg, limbs: m }
    }

    /// The difference.
    pub fn minus(&self, other: &BigInt) -> (r: BigInt)
        ensures
            r.val() == self.val() - other.val(),
    {
        add_parts(self.neg, &self.limbs, !other.neg, &other.limbs)
    }
}

/// `signed(an, |a|) + signed(bn, |b|)`.
fn add_parts(an: bool, a: &Vec<u32>, bn: bool, b: &Vec<u32>) -> (r: BigInt)
    ensures
        r.val() == signed(an, mag(a@)) + signed(bn, mag(b@)),
{
    if an == bn {
        BigInt { neg: an, limbs: trim(mag_add(a, b)) }
    } else {
        let (d, borrow) = mag_sub(a, b);
        if !borrow {
            BigInt { neg: an, limbs: trim(d) }
        } else {
            proof {
                lemma_prefix_bound(d@, d.len() as nat);
            }
            let (d2, borrow2) = mag_sub(b, a);
            proof {
                lemma_prefix_bound(d2@, d2.len() as nat);
            }
            assert(!borrow2);
            BigInt { neg: bn, limbs: trim(d2) }
        }
    }
}


/// The value of the limbs of `s` from `j` up, with limb `j` of weight one.
pub open spec fn upper_val(s: Seq<u32>, j: int) -> int
    decreases s.len() - j,
{
    if j < 0 || j >= s.len() {
        0
    } else {
        digit(s, j) + 0x1_0000_0000 * upper_val(s, j + 1)
    }
}

/// A magnitude splits at limb `j` into its lower limbs and its upper limbs.
proof fn lemma_upper_split(s: Seq<u32>, j: int)
    requires
        0 <= j <= s.len(),
    ensures
        mag(s) == prefix_val(s, j as nat) + upper_val(s, j) * bpow(j as nat),
    decreases s.len() - j,
{
    if j < s.len() {
        lemma_upper_split(s, j + 1);
        lemma_prefix_step(s, j as nat);
        let (u, d, p) = (upper_val(s, j + 1), digit(s, j), bpow(j as nat));
        assert(u * (0x1_0000_0000 * p) + d * p == (d + 0x1_0000_0000 * u) * p) by (nonlinear_arith);
    }
}

/// Sequences with the same limbs from `j` up have the same upper value.
proof fn lemma_upper_agree(s: Seq<u32>, t: Seq<u32>, j: int)
    requires
        0 <= j,
        s.len() == t.len(),
        forall|k: int| j <= k < s.len() ==> s[k] == t[k],
    ensures
        upper_val(s, j) == upper_val(t, j),
    decreases s.len() - j,
{
    if j < s.len() {
        lemma_upper_agree(s, t, j + 1);
    }
}

/// Whether `mag(a) <= mag(b)`.
fn mag_le(a: &Vec<u32>, b: &Vec<u32>) -> (r: bool)
    ensures
        r == (mag(a@) <= mag(b@)),
{
    let (d, borrow) = mag_sub(b, a);
    proof {
        lemma_prefix_bound(d@, d.len() as nat);
    }
    !borrow
}

/// The single limb `x`.
fn single_limb(x: u32) -> (r: Vec<u32>)
    ensures
        mag(r@) == x,
{
    let mut r: Vec<u32> = Vec::new();
    r.push(x);
    proof {
        lemma_prefix_step(r@, 0);
    }
    r
}

/// Quotient and remainder of `a` by a positive `d`.
fn mag_divmod(a: &Vec<u32>, d: &Vec<u32>) -> (res: (Vec<u32>, Vec<u32>))
    requires
        mag(d@) > 0,
    ensures
        mag(a@) == mag(res.0@) * mag(d@) + mag(res.1@),
        0 <= mag(res.1@) < mag(d@),
{
    let ghost dv = mag(d@);
    let mut q: Vec<u32> = Vec::new();
    let mut t: usize = 0;
    while t < a.len()
        invariant
            t <= a.len(),
            q.len() == t,
        decreases a.len() - t,
    {
        q.push(0);
        t += 1;
    }
    let mut r: Vec<u32> = Vec::new();
    let mut j: usize = a.len();
    while j > 0
        invariant
            j <= a.len(),
            q.len() == a.len(),
            dv == mag(d@),
            dv > 0,
            upper_val(a@, j as int) == upper_val(q@, j as int) * dv + mag(r@),
            0 <= mag(r@) < dv,
        decreases j,
    {
        let x = a[j - 1];
        let shifted = shift_limbs(&r, 1);
        let low = single_limb(x);
        let cur = mag_add(&shifted, &low);
        let ghost tv = mag(cur@);
        proof {
            lemma_prefix_step(r@, 0);
            assert(bpow(1) == 0x1_0000_0000);
            let rv = mag(r@);
            assert(tv == rv * 0x1_0000_0000 + x);
            assert(tv < 0x1_0000_0000 * dv) by (nonlinear_arith)
                requires
                    tv == rv * 0x1_0000_0000 + x,
                    rv + 1 <= dv,
                    x < 0x1_0000_0000,
            ;
        }
        // The largest digit `lo` with `lo * d <= cur`.
        let mut lo: u64 = 0;
        let mut hi: u64 = 0x1_0000_0000;
        while hi - lo > 1
            invariant
                lo < hi <= 0x1_0000_0000,
                lo * dv <= tv,
                hi * dv > tv,
                dv == mag(d@),
                tv == mag(cur@),
            decreases hi - lo,
        {
            let mid = lo + (hi - lo) / 2;
            let p = mag_mul_limb(d, mid as u32);
            assert(mag(p@) == mid * dv) by {
                assert((mid as u32) as int == mid);
                assert(dv * mid == mid * dv) by (nonlinear_arith);
            }
            if mag_le(&p, &cur) {
                lo = mid;
            } else {
                hi = mid;
            }
        }
        let p = mag_mul_limb(d, lo as u32);
        assert(mag(p@) == lo * dv) by {
            assert((lo as u32) as int == lo);
            assert(dv * lo == lo * dv) by (nonlinear_arith);
        }
        let (rest, borrow) = mag_sub(&cur, &p);
        proof {
            lemma_prefix_bound(rest@, rest.len() as nat);
        }
        let ghost q_old = q@;
        q.set(j - 1, lo as u32);
        proof {
            let jj = (j - 1) as int;
            lemma_upper_agree(q_old, q@, j as int);
            assert(upper_val(q@, jj) == lo + 0x1_0000_0000 * upper_val(q@, j as int));
            assert(upper_val(a@, jj) == x + 0x1_0000_0000 * upper_val(a@, j as int));
            let (uq, rv, rn) = (upper_val(q_old, j as int), mag(r@), mag(rest@));
            assert(hi == lo + 1);
            assert(rn == tv - lo * dv);
            assert(x + 0x1_0000_0000 * (uq * dv + rv) == (lo + 0x1_0000_0000 * uq) * dv + rn) by (nonlinear_arith)
                requires
                    tv == rv * 0x1_0000_0000 + x,
                    rn == tv - lo * dv,
            ;
            assert(rn < dv) by (nonlinear_arith)
                requires
                    rn == tv - lo * dv,
                    (lo + 1) * dv > tv,
            ;
        }
        r = trim(rest);
        j -= 1;
    }
    proof {
        lemma_upper_split(a@, 0);
        lemma_upper_split(q@, 0);
    }
    (trim(q), r)
}

/// A common divisor of `x` and `y`, positive unless both are zero: the last
/// nonzero remainder of Euclid's algorithm.
fn mag_gcd(x: &Vec<u32>, y: &Vec<u32>) -> (g: Vec<u32>)
    ensures
        mag(x@) > 0 || mag(y@) > 0 ==> mag(g@) > 0,
{
    let mut a = copy_limbs(x);
    let mut b = copy_limbs(y);
    proof {
        lemma_prefix_bound(a@, a.len() as nat);
        lemma_prefix_bound(b@, b.len() as nat);
    }
    while !mag_is_zero(&b)
        invariant
            mag(x@) > 0 || mag(y@) > 0 ==> mag(a@) > 0 || mag(b@) > 0,
            mag(b@) >= 0,
        decreases mag(b@),
    {
        proof {
            lemma_prefix_bound(b@, b.len() as nat);
        }
        let (_, rem) = mag_divmod(&a, &b);
        a = b;
        b = rem;
    }
    a
}

/// A copy of the limbs.
fn copy_limbs(v: &Vec<u32>) -> (r: Vec<u32>)
    ensures
        r@ == v@,
{
    let mut r: Vec<u32> = Vec::new();
    let mut i: usize = 0;
    while i < v.len()
        invariant
            i <= v.len(),
            r@ =~= v@.subrange(0, i as int),
        decreases v.len() - i,
    {
        r.push(v[i]);
        i += 1;
    }
    assert(r@ =~= v@);
    r
}

/// Each entry of `w` is `g` times the entry of `r`, with `g >= 1`.
pub open spec fn scaled_by(w: Seq<BigInt>, r: Seq<BigInt>, g: int) -> bool {
    &&& g >= 1
    &&& w.len() == r.len()
    &&& forall|c: int| 0 <= c < w.len() ==> #[trigger] w[c].val() == g * r[c].val()
}

/// The row divided by a positive common factor of its entries.
pub fn divide_content(w: &Vec<BigInt>) -> (r: Vec<BigInt>)
    ensures
        r.len() == w.len(),
        exists|g: int| #[trigger] scaled_by(w@, r@, g),
{
    let mut g: Vec<u32> = Vec::new();
    let mut c: usize = 0;
    while c < w.len()
        invariant
            c <= w.len(),
            mag(g@) >= 0,
            (exists|cc: int| 0 <= cc < c && w@[cc].val() != 0) ==> mag(g@) > 0,
        decreases w.len() - c,
    {
        let ghost g_old = mag(g@);
        g = mag_gcd(&g, &w[c].limbs);
        proof {
            lemma_prefix_bound(g@, g.len() as nat);
            lemma_prefix_bound(w@[c as int].limbs@, w@[c as int].limbs.len() as nat);
        }
        c += 1;
    }
    if mag_is_zero(&g) {
        let mut r: Vec<BigInt> = Vec::new();
        let mut c: usize = 0;
        while c < w.len()
            invariant
                c <= w.len(),
                r.len() == c,
                forall|cc: int| 0 <= cc < c ==> #[trigger] r@[cc].val() == w@[cc].val(),
            decreases w.len() - c,
        {
            r.push(w[c].copy());
            c += 1;
        }
        assert(scaled_by(w@, r@, 1));
        return r;
    }
    let ghost gv = mag(g@);
    let mut r: Vec<BigInt> = Vec::new();
    let mut exact = true;
    let mut c: usize = 0;
    while c < w.len()
        invariant
            c <= w.len(),
            r.len() == c,
            gv == mag(g@),
            gv > 0,
            exact ==> forall|cc: int| 0 <= cc < c ==> #[trigger] w@[cc].val() == gv * r@[cc].val(),
        decreases w.len() - c,
    {
        let (qt, rm) = mag_divmod(&w[c].limbs, &g);
        let ghost r_old = r@;
        if !mag_is_zero(&rm) {
            exact = false;
        } else {
            proof {
                let (mq, mw) = (mag(qt@), mag(w@[c as int].limbs@));
                assert(mw == gv * mq && -mw == gv * (-mq)) by (nonlinear_arith)
                    requires
                        mw == mq * gv,
                ;
            }
        }
        r.push(BigInt { neg: w[c].neg, limbs: qt });
        proof {
            if exact {
                assert forall|cc: int| 0 <= cc < c + 1 implies #[trigger] w@[cc].val() == gv * r@[cc].val() by {
                    if cc < c {
                        assert(r@[cc] == r_old[cc]);
                    }
                }
            }
        }
        c += 1;
    }
    if exact {
        assert(scaled_by(w@, r@, gv));
        r
    } else {
        let mut r: Vec<BigInt> = Vec::new();
        let mut c: usize = 0;
        while c < w.len()
            invariant
                c <= w.len(),
                r.len() == c,
                forall|cc: int| 0 <= cc < c ==> #[trigger] r@[cc].val() == w@[cc].val(),
            decreases w.len() - c,
        {
            r.push(w[c].copy());
            c += 1;
        }
        assert(scaled_by(w@, r@, 1));
        r
    }
}

} // verus!
