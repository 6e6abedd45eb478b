//! The numeric model of little-endian sequences of 32-bit limbs, with the
//! lemmas that the natural-number arithmetic is proved from.
use vstd::arithmetic::power2::*;
use vstd::prelude::*;

verus! {

/// The base of one limb, 2^32.
pub open spec fn limb_base() -> nat {
    0x1_0000_0000
}

/// Limb `i` of `s`, with limbs beyond the end read as zero.
pub open spec fn limb(s: Seq<u32>, i: int) -> nat {
    if 0 <= i < s.len() {
        s[i] as nat
    } else {
        0
    }
}

/// The weight of limb position `i`: 2^(32 i).
pub open spec fn weight(i: nat) -> nat {
    pow2(32 * i)
}

/// The value of the lowest `n` limb positions of `s`.
pub open spec fn prefix_value(s: Seq<u32>, n: nat) -> nat
    decreases n,
{
    if n == 0 {
        0
    } else {
        prefix_value(s, (n - 1) as nat) + limb(s, n - 1) * weight((n - 1) as nat)
    }
}

/// The natural number that the little-endian limbs `s` denote.
pub open spec fn seq_value(s: Seq<u32>) -> nat {
    prefix_value(s, s.len())
}

/// No most-significant zero limb.
pub open spec fn normalized(s: Seq<u32>) -> bool {
    s.len() == 0 || s[s.len() - 1] != 0
}

pub proof fn lemma_weight_zero()
    ensures
        weight(0) == 1,
{
    lemma2_to64();
}

pub proof fn lemma_weight_succ(i: nat)
    ensures
        weight(i + 1) == weight(i) * limb_base(),
        weight(i) > 0,
{
    lemma2_to64();
    lemma_pow2_adds(32 * i, 32);
    assert(32 * (i + 1) == 32 * i + 32) by (nonlinear_arith);
    lemma_pow2_pos(32 * i);
}

pub proof fn lemma_weight_adds(i: nat, j: nat)
    ensures
        weight(i + j) == weight(i) * weight(j),
{
    assert(32 * (i + j) == 32 * i + 32 * j) by (nonlinear_arith);
    lemma_pow2_adds(32 * i, 32 * j);
}

pub proof fn lemma_weight_pos(i: nat)
    ensures
        weight(i) > 0,
{
    lemma_pow2_pos(32 * i);
}

pub proof fn lemma_weight_mono(i: nat, j: nat)
    requires
        i <= j,
    ensures
        weight(i) <= weight(j),
{
    if i < j {
        lemma_pow2_strictly_increases(32 * i, 32 * j);
    }
}

pub proof fn lemma_prefix_bound(s: Seq<u32>, n: nat)
    ensures
        prefix_value(s, n) < weight(n),
    decreases n,
{
    if n == 0 {
        lemma_weight_zero();
    } else {
        let m = (n - 1) as nat;
        lemma_prefix_bound(s, m);
        lemma_weight_succ(m);
        let p = prefix_value(s, m);
        let l = limb(s, m as int);
        let w = weight(m);
        assert(l < limb_base());
        assert(p + l * w < w * limb_base()) by (nonlinear_arith)
            requires
                p < w,
                l < limb_base(),
                limb_base() == 0x1_0000_0000,
        ;
    }
}

pub proof fn lemma_value_bound(s: Seq<u32>)
    ensures
        seq_value(s) < weight(s.len()),
{
    lemma_prefix_bound(s, s.len());
}

pub proof fn lemma_prefix_ext(s1: Seq<u32>, s2: Seq<u32>, n: nat)
    requires
        forall|i: int| 0 <= i < n ==> limb(s1, i) == limb(s2, i),
    ensures
        prefix_value(s1, n) == prefix_value(s2, n),
    decreases n,
{
    if n > 0 {
        lemma_prefix_ext(s1, s2, (n - 1) as nat);
        assert(limb(s1, n - 1) == limb(s2, n - 1));
    }
}

pub proof fn lemma_prefix_full(s: Seq<u32>, n: nat)
    requires
        n >= s.len(),
    ensures
        prefix_value(s, n) == seq_value(s),
    decreases n,
{
    if n > s.len() {
        lemma_prefix_full(s, (n - 1) as nat);
        assert(limb(s, n - 1) == 0);
    }
}

pub proof fn lemma_value_push(s: Seq<u32>, x: u32)
    ensures
        seq_value(s.push(x)) == seq_value(s) + x * weight(s.len()),
{
    let t = s.push(x);
    assert forall|i: int| 0 <= i < s.len() implies limb(t, i) == limb(s, i) by {}
    lemma_prefix_ext(t, s, s.len());
    assert(limb(t, s.len() as int) == x);
}

pub proof fn lemma_value_drop_zero(s: Seq<u32>)
    requires
        s.len() > 0,
        s[s.len() - 1] == 0,
    ensures
        seq_value(s.drop_last()) == seq_value(s),
{
    let t = s.drop_last();
    assert forall|i: int| 0 <= i < t.len() implies limb(t, i) == limb(s, i) by {}
    lemma_prefix_ext(t, s, t.len());
    assert(limb(s, t.len() as int) == 0);
}

pub proof fn lemma_value_empty(s: Seq<u32>)
    requires
        s.len() == 0,
    ensures
        seq_value(s) == 0,
{
}

pub proof fn lemma_value_single(s: Seq<u32>)
    requires
        s.len() == 1,
    ensures
        seq_value(s) == s[0],
{
    lemma_weight_zero();
    assert(prefix_value(s, 1) == prefix_value(s, 0) + limb(s, 0) * weight(0));
}

pub proof fn lemma_prefix_update(s: Seq<u32>, k: int, x: u32, n: nat)
    requires
        0 <= k < s.len(),
        k < n,
    ensures
        prefix_value(s.update(k, x), n) + s[k] * weight(k as nat) == prefix_value(s, n) + x
            * weight(k as nat),
    decreases n,
{
    let t = s.update(k, x);
    let m = (n - 1) as nat;
    if m == k {
        assert forall|i: int| 0 <= i < m implies limb(t, i) == limb(s, i) by {}
        lemma_prefix_ext(t, s, m);
    } else {
        lemma_prefix_update(s, k, x, m);
        assert(limb(t, m as int) == limb(s, m as int));
    }
}

pub proof fn lemma_value_update(s: Seq<u32>, k: int, x: u32)
    requires
        0 <= k < s.len(),
    ensures
        seq_value(s.update(k, x)) + s[k] * weight(k as nat) == seq_value(s) + x * weight(
            k as nat,
        ),
{
    lemma_prefix_update(s, k, x, s.len());
}

/// Splitting the limbs at position `k`: low part plus the shifted high part.
pub proof fn lemma_prefix_split(s: Seq<u32>, k: nat, m: nat)
    requires
        k <= s.len(),
    ensures
        prefix_value(s, k + m) == prefix_value(s, k) + weight(k) * prefix_value(
            s.subrange(k as int, s.len() as int),
            m,
        ),
    decreases m,
{
    let t = s.subrange(k as int, s.len() as int);
    if m == 0 {
        assert(prefix_value(t, 0) == 0);
        assert(weight(k) * 0 == 0);
    } else {
        let m1 = (m - 1) as nat;
        lemma_prefix_split(s, k, m1);
        assert(limb(t, m1 as int) == limb(s, (k + m1) as int));
        lemma_weight_adds(k, m1);
        let a = prefix_value(s, k);
        let b = prefix_value(t, m1);
        let l = limb(t, m1 as int);
        let wk = weight(k);
        let wm = weight(m1);
        assert((k + m) - 1 == k + m1);
        assert(prefix_value(s, k + m) == prefix_value(s, k + m1) + limb(s, (k + m1) as int)
            * weight(k + m1));
        assert(prefix_value(t, m) == b + l * wm);
        assert(a + wk * b + l * (wk * wm) == a + wk * (b + l * wm)) by (nonlinear_arith);
        assert(prefix_value(s, k + m) == a + wk * b + l * (wk * wm));
    }
}

pub proof fn lemma_value_split(s: Seq<u32>, k: nat)
    requires
        k <= s.len(),
    ensures
        seq_value(s) == prefix_value(s, k) + weight(k) * seq_value(
            s.subrange(k as int, s.len() as int),
        ),
{
    lemma_prefix_split(s, k, (s.len() - k) as nat);
}

/// The value of a normalized nonempty sequence reaches the weight of its top limb.
pub proof fn lemma_normalized_lower(s: Seq<u32>)
    requires
        normalized(s),
        s.len() > 0,
    ensures
        seq_value(s) >= weight((s.len() - 1) as nat),
{
    let n = (s.len() - 1) as nat;
    assert(limb(s, n as int) >= 1);
    let w = weight(n);
    let l = limb(s, n as int);
    assert(l * w >= w) by (nonlinear_arith)
        requires
            l >= 1,
    ;
}

/// Normalized sequences have the same value only if they are equal.
pub proof fn lemma_normalized_len_order(s1: Seq<u32>, s2: Seq<u32>)
    requires
        normalized(s1),
        normalized(s2),
        s1.len() < s2.len(),
    ensures
        seq_value(s1) < seq_value(s2),
{
    lemma_value_bound(s1);
    lemma_normalized_lower(s2);
    lemma_weight_mono(s1.len(), (s2.len() - 1) as nat);
}

/// Of two limb sequences of equal length that agree above index `j`, the one
/// with the smaller limb at `j` has the smaller value.
pub proof fn lemma_top_difference(s1: Seq<u32>, s2: Seq<u32>, j: int)
    requires
        s1.len() == s2.len(),
        0 <= j < s1.len(),
        forall|i: int| j < i < s1.len() ==> s1[i] == s2[i],
        s1[j] < s2[j],
    ensures
        seq_value(s1) < seq_value(s2),
{
    let n = s1.len();
    let j1 = (j + 1) as nat;
    let t1 = s1.subrange(j1 as int, n as int);
    let t2 = s2.subrange(j1 as int, n as int);
    assert(t1 =~= t2);
    lemma_value_split(s1, j1);
    lemma_value_split(s2, j1);
    let u = seq_value(t1);
    assert(prefix_value(s1, j1) == prefix_value(s1, j as nat) + s1[j] * weight(j as nat));
    assert(prefix_value(s2, j1) == prefix_value(s2, j as nat) + s2[j] * weight(j as nat));
    lemma_prefix_bound(s1, j as nat);
    let p1 = prefix_value(s1, j as nat);
    let p2 = prefix_value(s2, j as nat);
    let w = weight(j as nat);
    let a = s1[j] as nat;
    let b = s2[j] as nat;
    assert(p1 + a * w < p2 + b * w) by (nonlinear_arith)
        requires
            p1 < w,
            a < b,
            p2 >= 0,
    ;
}

/// `lemma_top_difference` at a machine index.
pub proof fn lemma_top_difference_at(s1: Seq<u32>, s2: Seq<u32>, j: usize)
    requires
        s1.len() == s2.len(),
        j < s1.len(),
        forall|i: int| j < i < s1.len() ==> s1[i] == s2[i],
        s1[j as int] < s2[j as int],
    ensures
        seq_value(s1) < seq_value(s2),
{
    lemma_top_difference(s1, s2, j as int);
}

/// Limb `k` of a sequence is its value's digit at position `k`.
pub proof fn lemma_limb_digit(s: Seq<u32>, k: nat)
    requires
        k < s.len(),
    ensures
        s[k as int] as nat == (seq_value(s) / weight(k)) % limb_base(),
{
    let t = s.subrange(k as int, s.len() as int);
    lemma_value_split(s, k);
    lemma_value_split(t, 1);
    let u = t.subrange(1, t.len() as int);
    lemma_weight_zero();
    lemma_weight_succ(0);
    assert(limb(t, 0) == t[0]);
    assert(prefix_value(t, 1) == prefix_value(t, 0) + limb(t, 0) * weight(0));
    assert(limb(t, 0) * weight(0) == limb(t, 0));
    assert(prefix_value(t, 0) == 0);
    assert(prefix_value(t, 1) == t[0]);
    lemma_prefix_bound(s, k);
    let p = prefix_value(s, k);
    let w = weight(k);
    let x = t[0] as nat;
    let h = seq_value(u);
    assert(seq_value(t) == x + limb_base() * h);
    lemma_weight_pos(k);
    assert((p + w * (x + limb_base() * h)) / w == x + limb_base() * h) by (nonlinear_arith)
        requires
            p < w,
            w > 0,
    ;
    assert((x + limb_base() * h) % limb_base() == x) by (nonlinear_arith)
        requires
            x < limb_base(),
            limb_base() > 0,
    ;
}

/// The number of limbs in the normalized representation of `v`.
pub open spec fn limb_count(v: nat) -> nat
    decreases v,
{
    if v == 0 {
        0
    } else {
        1 + limb_count(v / limb_base())
    }
}

/// `s` with its most-significant zero limbs removed.
pub open spec fn trimmed(s: Seq<u32>) -> Seq<u32>
    decreases s.len(),
{
    if s.len() > 0 && s[s.len() - 1] == 0 {
        trimmed(s.drop_last())
    } else {
        s
    }
}

pub proof fn lemma_trimmed(s: Seq<u32>)
    ensures
        normalized(trimmed(s)),
        seq_value(trimmed(s)) == seq_value(s),
        trimmed(s).len() <= s.len(),
        forall|i: int| 0 <= i < trimmed(s).len() ==> trimmed(s)[i] == s[i],
    decreases s.len(),
{
    if s.len() > 0 && s[s.len() - 1] == 0 {
        lemma_trimmed(s.drop_last());
        lemma_value_drop_zero(s);
        assert forall|i: int| 0 <= i < trimmed(s).len() implies trimmed(s)[i] == s[i] by {
            assert(trimmed(s)[i] == s.drop_last()[i]);
        }
    }
}

/// The limb count of `v` is `n` exactly when `v` lies in `[w(n-1), w(n))`.
pub proof fn lemma_limb_count_range(v: nat, n: nat)
    requires
        if n == 0 {
            v == 0
        } else {
            weight((n - 1) as nat) <= v < weight(n)
        },
    ensures
        limb_count(v) == n,
    decreases n,
{
    if n > 0 {
        let m = (n - 1) as nat;
        lemma_weight_zero();
        lemma_weight_succ(m);
        lemma_weight_pos(m);
        assert(v > 0);
        if m == 0 {
            assert(v / limb_base() == 0) by (nonlinear_arith)
                requires
                    v < limb_base(),
            ;
            assert(limb_count(0) == 0);
            assert(limb_count(v) == 1 + limb_count(v / limb_base()));
        } else {
            let k = (m - 1) as nat;
            lemma_weight_succ(k);
            let q = v / limb_base();
            assert(weight(k) <= q < weight(m)) by (nonlinear_arith)
                requires
                    weight(m) == weight(k) * limb_base(),
                    weight(n) == weight(m) * limb_base(),
                    weight(m) <= v < weight(n),
                    q == v / limb_base(),
                    limb_base() > 0,
            ;
            lemma_limb_count_range(q, m);
            assert(limb_count(v) == 1 + limb_count(q));
        }
    }
}

/// A normalized limb sequence has exactly as many limbs as its value needs.
pub proof fn lemma_normalized_count(s: Seq<u32>)
    requires
        normalized(s),
    ensures
        limb_count(seq_value(s)) == s.len(),
{
    if s.len() == 0 {
    } else {
        lemma_normalized_lower(s);
        lemma_value_bound(s);
        lemma_limb_count_range(seq_value(s), s.len());
    }
}

/// Two normalized limb sequences with the same value are equal.
pub proof fn lemma_normalized_unique(s1: Seq<u32>, s2: Seq<u32>)
    requires
        normalized(s1),
        normalized(s2),
        seq_value(s1) == seq_value(s2),
    ensures
        s1 == s2,
{
    lemma_normalized_count(s1);
    lemma_normalized_count(s2);
    assert forall|i: int| 0 <= i < s1.len() implies s1[i] == s2[i] by {
        lemma_limb_digit(s1, i as nat);
        lemma_limb_digit(s2, i as nat);
    }
    assert(s1 =~= s2);
}

/// A value reaches the weight just below its limb count.
pub proof fn lemma_limb_count_lower(v: nat)
    requires
        v > 0,
    ensures
        limb_count(v) >= 1,
        v >= weight((limb_count(v) - 1) as nat),
        v < weight(limb_count(v)),
    decreases v,
{
    lemma_weight_zero();
    lemma_weight_succ(0);
    let q = v / limb_base();
    if q == 0 {
        assert(limb_count(q) == 0);
        assert(v < limb_base()) by (nonlinear_arith)
            requires
                q == v / limb_base(),
                q == 0,
        ;
    } else {
        lemma_limb_count_lower(q);
        let k = (limb_count(q) - 1) as nat;
        lemma_weight_succ(k);
        lemma_weight_succ(limb_count(q));
        assert(v >= weight(k) * limb_base() && v < weight(limb_count(q)) * limb_base())
            by (nonlinear_arith)
            requires
                q == v / limb_base(),
                q >= weight(k),
                q < weight(limb_count(q)),
        ;
    }
}

/// More value needs at least as many limbs.
pub proof fn lemma_limb_count_mono(a: nat, b: nat)
    requires
        a <= b,
    ensures
        limb_count(a) <= limb_count(b),
    decreases b,
{
    if a > 0 {
        vstd::arithmetic::div_mod::lemma_div_is_ordered(a as int, b as int, limb_base() as int);
        assert(b / limb_base() < b) by (nonlinear_arith)
            requires
                b > 0,
                limb_base() > 1,
        ;
        lemma_limb_count_mono(a / limb_base(), b / limb_base());
    }
}

/// The first `m` terms `a[k] * b[d - k]` of column `d` of the product of `a` and `b`.
pub open spec fn column_partial(a: Seq<u32>, b: Seq<u32>, d: nat, m: nat) -> nat
    decreases m,
{
    if m == 0 {
        0
    } else {
        column_partial(a, b, d, (m - 1) as nat) + limb(a, m - 1) * limb(b, d - (m - 1))
    }
}

/// The weighted sum of the lowest `n` columns, each truncated to `m` terms.
pub open spec fn columns_value(a: Seq<u32>, b: Seq<u32>, n: nat, m: nat) -> nat
    decreases n,
{
    if n == 0 {
        0
    } else {
        columns_value(a, b, (n - 1) as nat, m) + column_partial(a, b, (n - 1) as nat, m) * weight(
            (n - 1) as nat,
        )
    }
}

/// The value of `b` shifted up by `m` limbs, cut to the lowest `n` positions.
pub open spec fn shifted_value(b: Seq<u32>, m: nat, n: nat) -> nat
    decreases n,
{
    if n == 0 {
        0
    } else {
        shifted_value(b, m, (n - 1) as nat) + limb(b, (n - 1) - m) * weight((n - 1) as nat)
    }
}

pub proof fn lemma_shifted_low(b: Seq<u32>, m: nat, n: nat)
    requires
        n <= m,
    ensures
        shifted_value(b, m, n) == 0,
    decreases n,
{
    if n > 0 {
        lemma_shifted_low(b, m, (n - 1) as nat);
        let l = limb(b, (n - 1) - m);
        assert(l == 0);
        assert(l * weight((n - 1) as nat) == 0) by (nonlinear_arith)
            requires
                l == 0,
        ;
    }
}

pub proof fn lemma_shifted(b: Seq<u32>, m: nat, n: nat)
    requires
        n >= m,
    ensures
        shifted_value(b, m, n) == weight(m) * prefix_value(b, (n - m) as nat),
    decreases n,
{
    if n == m {
        lemma_shifted_low(b, m, n);
        assert(weight(m) * prefix_value(b, 0) == 0) by (nonlinear_arith)
            requires
                prefix_value(b, 0) == 0,
        ;
    } else {
        let n1 = (n - 1) as nat;
        lemma_shifted(b, m, n1);
        let j = (n1 - m) as nat;
        lemma_weight_adds(m, j);
        assert(m + j == n1);
        let l = limb(b, j as int);
        let p = prefix_value(b, j);
        assert(prefix_value(b, j + 1) == p + l * weight(j));
        assert((n - m) as nat == j + 1);
        assert(weight(m) * p + l * (weight(m) * weight(j)) == weight(m) * (p + l * weight(j)))
            by (nonlinear_arith);
    }
}

pub proof fn lemma_columns_step(a: Seq<u32>, b: Seq<u32>, n: nat, m: nat)
    ensures
        columns_value(a, b, n, m + 1) == columns_value(a, b, n, m) + limb(a, m as int)
            * shifted_value(b, m, n),
    decreases n,
{
    if n > 0 {
        let n1 = (n - 1) as nat;
        lemma_columns_step(a, b, n1, m);
        let x = limb(a, m as int);
        let y = limb(b, n1 - m);
        let c = column_partial(a, b, n1, m);
        let w = weight(n1);
        assert(column_partial(a, b, n1, m + 1) == c + x * y);
        let s = shifted_value(b, m, n1);
        assert(shifted_value(b, m, n) == s + y * w);
        assert(columns_value(a, b, n, m + 1) == columns_value(a, b, n1, m + 1) + (c + x * y) * w);
        assert(columns_value(a, b, n, m) == columns_value(a, b, n1, m) + c * w);
        assert((c + x * y) * w == c * w + x * (y * w)) by (nonlinear_arith);
        assert(x * s + x * (y * w) == x * (s + y * w)) by (nonlinear_arith);
    } else {
        let x = limb(a, m as int);
        assert(x * shifted_value(b, m, n) == 0) by (nonlinear_arith)
            requires
                shifted_value(b, m, n) == 0,
        ;
    }
}

pub proof fn lemma_columns_zero(a: Seq<u32>, b: Seq<u32>, n: nat)
    ensures
        columns_value(a, b, n, 0) == 0,
    decreases n,
{
    if n > 0 {
        lemma_columns_zero(a, b, (n - 1) as nat);
        let w = weight((n - 1) as nat);
        assert(column_partial(a, b, (n - 1) as nat, 0) * w == 0) by (nonlinear_arith)
            requires
                column_partial(a, b, (n - 1) as nat, 0) == 0,
        ;
    }
}

/// The columns of the first `m` limbs of `a` against `b` add up to their product.
pub proof fn lemma_columns_product(a: Seq<u32>, b: Seq<u32>, n: nat, m: nat)
    requires
        n >= m + b.len(),
    ensures
        columns_value(a, b, n, m) == prefix_value(a, m) * seq_value(b),
    decreases m,
{
    if m == 0 {
        lemma_columns_zero(a, b, n);
        assert(prefix_value(a, 0) * seq_value(b) == 0) by (nonlinear_arith)
            requires
                prefix_value(a, 0) == 0,
        ;
    } else {
        let m1 = (m - 1) as nat;
        lemma_columns_product(a, b, n, m1);
        lemma_columns_step(a, b, n, m1);
        lemma_shifted(b, m1, n);
        lemma_prefix_full(b, (n - m1) as nat);
        let x = limb(a, m1 as int);
        let p = prefix_value(a, m1);
        let v = seq_value(b);
        let w = weight(m1);
        assert(p * v + x * (w * v) == (p + x * w) * v) by (nonlinear_arith);
    }
}

/// Terms of a column that vanish do not change its partial sum.
pub proof fn lemma_column_zero_terms(a: Seq<u32>, b: Seq<u32>, d: nat, m: nat, big: nat)
    requires
        m <= big,
        forall|k: int| m <= k < big ==> limb(a, k) * limb(b, d - k) == 0,
    ensures
        column_partial(a, b, d, big) == column_partial(a, b, d, m),
    decreases big,
{
    if big > m {
        lemma_column_zero_terms(a, b, d, m, (big - 1) as nat);
    }
}

/// Each term of a column is a product of two limbs.
pub proof fn lemma_column_term_bound(a: Seq<u32>, b: Seq<u32>, d: nat, k: int)
    ensures
        limb(a, k) * limb(b, d - k) <= 0xFFFF_FFFE_0000_0001,
{
    let x = limb(a, k);
    let y = limb(b, d - k);
    assert(x * y <= 0xFFFF_FFFE_0000_0001) by (nonlinear_arith)
        requires
            x <= 0xFFFF_FFFF,
            y <= 0xFFFF_FFFF,
    ;
}

} // verus!
