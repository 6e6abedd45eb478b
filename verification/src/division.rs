//! Long division of rational polynomials reconstructs the dividend: the divisor times
//! the quotient, plus the remainder, is the dividend.
use crate::integer::abs;
use crate::interpolation::{lemma_rat_add_zero, lemma_rat_integer_ops, lemma_reduced_integer};
use crate::polynomial::{
    all_integral, all_reduced, as_rationals, coef, conv, integer_parts, is_trimmed, poly_mul, division_step, is_divisor_poly, is_trimmed_rat, lemma_division_step,
    lemma_trim_rat, long_division, max_nat, rat_add, rat_add_sub, rat_div, rat_div_rem, rat_mul,
    rat_poly_mul, rat_sub, rat_sum_at, rat_zero, rconv, trim_int, trim_rat,
};
use crate::rational::{is_reduced, lemma_reduced_form, lemma_reduced_unique, reduced_form};
use vstd::prelude::*;

verus! {

/// Two fractions with positive denominators have the same value.
pub open spec fn same_value(p: (int, nat), q: (int, nat)) -> bool {
    p.0 * q.1 == q.0 * p.1
}

/// The unreduced sum of two fractions.
pub open spec fn raw_add(p: (int, nat), q: (int, nat)) -> (int, nat) {
    (p.0 * q.1 + q.0 * p.1, p.1 * q.1)
}

/// The unreduced difference of two fractions.
pub open spec fn raw_sub(p: (int, nat), q: (int, nat)) -> (int, nat) {
    (p.0 * q.1 - q.0 * p.1, p.1 * q.1)
}

/// The unreduced product of two fractions.
pub open spec fn raw_mul(p: (int, nat), q: (int, nat)) -> (int, nat) {
    (p.0 * q.0, p.1 * q.1)
}

/// Coefficient `k` of a rational coefficient sequence; zero outside it.
pub open spec fn rcoef(s: Seq<(int, nat)>, k: int) -> (int, nat) {
    if 0 <= k < s.len() {
        s[k]
    } else {
        rat_zero()
    }
}

/// A product of positive naturals is positive.
proof fn lemma_positive_product(a: nat, b: nat)
    requires
        a > 0,
        b > 0,
    ensures
        a * b > 0,
{
    assert(a * b > 0) by (nonlinear_arith)
        requires
            a > 0,
            b > 0,
    ;
}

/// Having the same value is transitive through a positive denominator.
proof fn lemma_same_trans(p: (int, nat), q: (int, nat), r: (int, nat))
    requires
        q.1 > 0,
        same_value(p, q),
        same_value(q, r),
    ensures
        same_value(p, r),
{
    assert(p.0 * r.1 * q.1 == r.0 * p.1 * q.1) by (nonlinear_arith)
        requires
            p.0 * q.1 == q.0 * p.1,
            q.0 * r.1 == r.0 * q.1,
    ;
    assert(p.0 * r.1 == r.0 * p.1) by (nonlinear_arith)
        requires
            p.0 * r.1 * q.1 == r.0 * p.1 * q.1,
            q.1 > 0,
    ;
}

/// Reducing keeps the value.
proof fn lemma_reduced_same(p: (int, nat))
    requires
        p.1 > 0,
    ensures
        same_value(reduced_form(p.0, p.1), p),
        is_reduced(reduced_form(p.0, p.1)),
{
    lemma_reduced_form(p.0, p.1);
}

/// Fractions of the same value reduce alike.
proof fn lemma_reduced_eq(p: (int, nat), q: (int, nat))
    requires
        p.1 > 0,
        q.1 > 0,
        same_value(p, q),
    ensures
        reduced_form(p.0, p.1) == reduced_form(q.0, q.1),
{
    lemma_reduced_same(p);
    lemma_reduced_same(q);
    let rp = reduced_form(p.0, p.1);
    let rq = reduced_form(q.0, q.1);
    lemma_same_trans(rp, p, q);
    assert(same_value(q, rq)) by {
        assert(q.0 * rq.1 == rq.0 * q.1);
    }
    lemma_same_trans(rp, q, rq);
    lemma_reduced_unique(rp, rq);
}

/// The unreduced operations respect equal values.
proof fn lemma_raw_congruent(p: (int, nat), p2: (int, nat), q: (int, nat), q2: (int, nat))
    requires
        p.1 > 0,
        p2.1 > 0,
        q.1 > 0,
        q2.1 > 0,
        same_value(p, p2),
        same_value(q, q2),
    ensures
        same_value(raw_add(p, q), raw_add(p2, q2)),
        same_value(raw_sub(p, q), raw_sub(p2, q2)),
        same_value(raw_mul(p, q), raw_mul(p2, q2)),
{
    lemma_cross_terms(p.0, q.1 as int, q.0, p.1 as int, p2.1 as int, q2.1 as int);
    lemma_cross_terms(p2.0, q2.1 as int, q2.0, p2.1 as int, p.1 as int, q.1 as int);
    assert((p.0 * q.0) * (p2.1 * q2.1) == (p.0 * p2.1) * (q.0 * q2.1)) by (nonlinear_arith);
    assert((p2.0 * q2.0) * (p.1 * q.1) == (p2.0 * p.1) * (q2.0 * q.1)) by (nonlinear_arith);
    assert(q.1 * q2.1 == q2.1 * q.1 && p.1 * p2.1 == p2.1 * p.1) by (nonlinear_arith);
}

/// Expanding a cross-multiplied sum and difference against another denominator pair.
proof fn lemma_cross_terms(a: int, b: int, c: int, d: int, e: int, f: int)
    ensures
        (a * b + c * d) * (e * f) == (a * e) * (b * f) + (c * f) * (d * e),
        (a * b - c * d) * (e * f) == (a * e) * (b * f) - (c * f) * (d * e),
{
    vstd::arithmetic::mul::lemma_mul_is_distributive_add_other_way(e * f, a * b, c * d);
    vstd::arithmetic::mul::lemma_mul_is_distributive_sub_other_way(e * f, a * b, c * d);
    lemma_swap_middle(a, b, e, f);
    lemma_swap_middle(c, d, f, e);
    assert(e * f == f * e) by (nonlinear_arith);
}

/// `(a * b) * (e * f) == (a * e) * (b * f)`.
proof fn lemma_swap_middle(a: int, b: int, e: int, f: int)
    ensures
        (a * b) * (e * f) == (a * e) * (b * f),
{
    vstd::arithmetic::mul::lemma_mul_is_associative(a * b, e, f);
    vstd::arithmetic::mul::lemma_mul_is_associative(a, b, e);
    vstd::arithmetic::mul::lemma_mul_is_commutative(b, e);
    vstd::arithmetic::mul::lemma_mul_is_associative(a, e, b);
    vstd::arithmetic::mul::lemma_mul_is_associative(a * e, b, f);
}

/// A reduced result of an operation has the value of the unreduced one.
proof fn lemma_ops_same(p: (int, nat), q: (int, nat))
    requires
        p.1 > 0,
        q.1 > 0,
    ensures
        same_value(rat_add(p, q), raw_add(p, q)),
        same_value(rat_sub(p, q), raw_sub(p, q)),
        same_value(rat_mul(p, q), raw_mul(p, q)),
        rat_add(p, q).1 > 0,
        rat_sub(p, q).1 > 0,
        rat_mul(p, q).1 > 0,
        is_reduced(rat_add(p, q)),
        is_reduced(rat_sub(p, q)),
        is_reduced(rat_mul(p, q)),
{
    lemma_positive_product(p.1, q.1);
    lemma_reduced_same(raw_add(p, q));
    lemma_reduced_same(raw_sub(p, q));
    lemma_reduced_same(raw_mul(p, q));
}

/// Cancelling an added and subtracted term: `(x + t) + (r - t) == x + r`.
pub proof fn lemma_add_cancel(x: (int, nat), t: (int, nat), r: (int, nat))
    requires
        x.1 > 0,
        t.1 > 0,
        r.1 > 0,
    ensures
        rat_add(rat_add(x, t), rat_sub(r, t)) == rat_add(x, r),
{
    lemma_ops_same(x, t);
    lemma_ops_same(r, t);
    lemma_ops_same(x, r);
    let s1 = rat_add(x, t);
    let s2 = rat_sub(r, t);
    lemma_ops_same(s1, s2);
    let r1 = raw_add(x, t);
    let r2 = raw_sub(r, t);
    lemma_positive_product(x.1, t.1);
    lemma_positive_product(r.1, t.1);
    lemma_raw_congruent(s1, r1, s2, r2);
    let big = raw_add(r1, r2);
    let small = raw_add(x, r);
    lemma_positive_product(r1.1, r2.1);
    lemma_positive_product(x.1, r.1);
    let (a, b, c, d, e, f) = (x.0, x.1 as int, t.0, t.1 as int, r.0, r.1 as int);
    assert((a * d + c * b) * (f * d) == a * d * f * d + c * b * f * d) by (nonlinear_arith);
    assert((e * d - c * f) * (b * d) == e * d * b * d - c * f * b * d) by (nonlinear_arith);
    assert(c * b * f * d == c * f * b * d) by (nonlinear_arith);
    assert(a * d * f * d + e * d * b * d == d * d * (a * f + e * b)) by (nonlinear_arith);
    assert(big.0 == t.1 * t.1 * small.0);
    assert(big.1 == t.1 * t.1 * small.1) by (nonlinear_arith)
        requires
            big.1 == (x.1 * t.1) * (r.1 * t.1),
            small.1 == x.1 * r.1,
    ;
    assert(same_value(big, small)) by (nonlinear_arith)
        requires
            big.0 == t.1 * t.1 * small.0,
            big.1 == t.1 * t.1 * small.1,
    ;
    lemma_same_trans(raw_add(s1, s2), big, small);
    lemma_positive_product(s1.1, s2.1);
    lemma_reduced_eq(raw_add(s1, s2), small);
}

/// A reduced fraction with numerator zero is `0 / 1`.
pub proof fn lemma_zero_reduced(p: (int, nat))
    requires
        is_reduced(p),
        p.0 == 0,
    ensures
        p == rat_zero(),
{
    assert(abs(p.0) == 0);
    assert(crate::natural::gcd_spec(0, p.1) == p.1) by {
        assert(0nat % p.1 == 0);
        assert(crate::natural::gcd_spec(p.1, 0) == p.1);
    }
}

/// Zero is reduced.
pub proof fn lemma_zero_is_reduced()
    ensures
        is_reduced(rat_zero()),
{
    assert(crate::natural::gcd_spec(0, 1) == 1) by {
        assert(0nat % 1 == 0);
        assert(crate::natural::gcd_spec(1, 0) == 1);
    }
}

/// Multiplying by zero gives zero, on either side.
pub proof fn lemma_mul_zero(p: (int, nat))
    requires
        p.1 > 0,
    ensures
        rat_mul(p, rat_zero()) == rat_zero(),
        rat_mul(rat_zero(), p) == rat_zero(),
{
    lemma_ops_same(p, rat_zero());
    lemma_ops_same(rat_zero(), p);
    assert(p.0 * 0 == 0);
    assert(0 * p.0 == 0);
    assert(rat_mul(p, rat_zero()).0 * (p.1 * 1) == 0);
    assert(rat_mul(p, rat_zero()).0 == 0) by (nonlinear_arith)
        requires
            rat_mul(p, rat_zero()).0 * (p.1 * 1) == 0,
            p.1 > 0,
    ;
    assert(rat_mul(rat_zero(), p).0 == 0) by (nonlinear_arith)
        requires
            rat_mul(rat_zero(), p).0 * (1 * p.1) == 0 * rat_mul(rat_zero(), p).1,
            p.1 > 0,
    ;
    lemma_zero_reduced(rat_mul(p, rat_zero()));
    lemma_zero_reduced(rat_mul(rat_zero(), p));
}

/// Multiplication commutes.
pub proof fn lemma_mul_comm(p: (int, nat), q: (int, nat))
    ensures
        rat_mul(p, q) == rat_mul(q, p),
{
    assert(p.0 * q.0 == q.0 * p.0) by (nonlinear_arith);
    assert(p.1 * q.1 == q.1 * p.1) by (nonlinear_arith);
}

/// Two added terms can be added in either order: `(x + t) + y == (x + y) + t`.
pub proof fn lemma_add_swap(x: (int, nat), t: (int, nat), y: (int, nat))
    requires
        x.1 > 0,
        t.1 > 0,
        y.1 > 0,
    ensures
        rat_add(rat_add(x, t), y) == rat_add(rat_add(x, y), t),
{
    lemma_ops_same(x, t);
    lemma_ops_same(x, y);
    let s1 = rat_add(x, t);
    let s2 = rat_add(x, y);
    lemma_ops_same(s1, y);
    lemma_ops_same(s2, t);
    let r1 = raw_add(x, t);
    let r2 = raw_add(x, y);
    lemma_positive_product(x.1, t.1);
    lemma_positive_product(x.1, y.1);
    lemma_raw_congruent(s1, r1, y, y);
    lemma_raw_congruent(s2, r2, t, t);
    let left = raw_add(r1, y);
    let right = raw_add(r2, t);
    let (a, b, c, d, e, f) = (x.0, x.1 as int, t.0, t.1 as int, y.0, y.1 as int);
    assert((a * d + c * b) * f + e * (b * d) == a * d * f + c * b * f + e * b * d) by (nonlinear_arith);
    assert((a * f + e * b) * d + c * (b * f) == a * d * f + c * b * f + e * b * d) by (nonlinear_arith);
    assert((b * d) * f == (b * f) * d) by (nonlinear_arith);
    assert(left == right);
    lemma_positive_product(s1.1, y.1);
    lemma_positive_product(s2.1, t.1);
    lemma_positive_product(r1.1, y.1);
    assert(same_value(left, raw_add(s2, t))) by {
        assert(same_value(raw_add(s2, t), right));
        assert(right.0 * raw_add(s2, t).1 == raw_add(s2, t).0 * right.1);
    }
    lemma_same_trans(raw_add(s1, y), left, raw_add(s2, t));
    lemma_positive_product(s2.1, t.1);
    lemma_reduced_eq(raw_add(s1, y), raw_add(s2, t));
}

/// Every partial sum of a product coefficient is reduced.
pub proof fn lemma_rconv_reduced(a: Seq<(int, nat)>, b: Seq<(int, nat)>, k: int, m: nat)
    requires
        all_reduced(a),
        all_reduced(b),
        m <= a.len(),
    ensures
        is_reduced(rconv(a, b, k, m)),
        rconv(a, b, k, m).1 > 0,
    decreases m,
{
    if m == 0 {
        lemma_zero_is_reduced();
    } else {
        lemma_rconv_reduced(a, b, k, (m - 1) as nat);
        let j = k - (m - 1);
        if 0 <= j < b.len() {
            assert(is_reduced(a[m - 1]));
            assert(is_reduced(b[j]));
            lemma_ops_same(a[m - 1], b[j]);
            lemma_ops_same(rconv(a, b, k, (m - 1) as nat), rat_mul(a[m - 1], b[j]));
        }
    }
}

/// Past the last column every partial sum is zero.
pub proof fn lemma_rconv_beyond(a: Seq<(int, nat)>, b: Seq<(int, nat)>, k: int, m: nat)
    requires
        k >= b.len() + m - 1 || b.len() == 0,
    ensures
        rconv(a, b, k, m) == rat_zero(),
    decreases m,
{
    if m > 0 {
        lemma_rconv_beyond(a, b, k, (m - 1) as nat);
    }
}

/// Against zero coefficients every partial sum is zero.
pub proof fn lemma_rconv_zeros(a: Seq<(int, nat)>, n: nat, k: int, m: nat)
    requires
        all_reduced(a),
        m <= a.len(),
    ensures
        rconv(a, Seq::new(n, |i: int| rat_zero()), k, m) == rat_zero(),
    decreases m,
{
    if m > 0 {
        lemma_rconv_zeros(a, n, k, (m - 1) as nat);
        let zeros = Seq::new(n, |i: int| rat_zero());
        let j = k - (m - 1);
        if 0 <= j < n {
            assert(zeros[j] == rat_zero());
            assert(is_reduced(a[m - 1]));
            lemma_mul_zero(a[m - 1]);
            lemma_zero_is_reduced();
            lemma_rat_add_zero(rat_zero());
        }
    }
}

/// Partial sums depend on the columns only through their coefficients, zero
/// outside them.
pub proof fn lemma_rconv_ext(a: Seq<(int, nat)>, b: Seq<(int, nat)>, c: Seq<(int, nat)>, k: int, m: nat)
    requires
        all_reduced(a),
        all_reduced(b),
        all_reduced(c),
        m <= a.len(),
        forall|j: int| 0 <= j ==> #[trigger] rcoef(b, j) == rcoef(c, j),
    ensures
        rconv(a, b, k, m) == rconv(a, c, k, m),
    decreases m,
{
    if m > 0 {
        lemma_rconv_ext(a, b, c, k, (m - 1) as nat);
        let j = k - (m - 1);
        let previous = rconv(a, b, k, (m - 1) as nat);
        lemma_rconv_reduced(a, b, k, (m - 1) as nat);
        assert(is_reduced(a[m - 1]));
        if 0 <= j {
            assert(rcoef(b, j) == rcoef(c, j));
        }
        if 0 <= j < b.len() && !(j < c.len()) {
            assert(b[j] == rat_zero());
            lemma_mul_zero(a[m - 1]);
            lemma_rat_add_zero(previous);
        }
        if 0 <= j < c.len() && !(j < b.len()) {
            assert(c[j] == rat_zero());
            lemma_mul_zero(a[m - 1]);
            lemma_rat_add_zero(previous);
        }
    }
}

/// Setting a zero column coefficient to `f` adds `a[i] * f` to the coefficient that
/// row `i` meets it in.
pub proof fn lemma_rconv_update(
    a: Seq<(int, nat)>,
    q: Seq<(int, nat)>,
    off: int,
    f: (int, nat),
    k: int,
    m: nat,
)
    requires
        all_reduced(a),
        all_reduced(q),
        is_reduced(f),
        0 <= off < q.len(),
        q[off] == rat_zero(),
        m <= a.len(),
    ensures
        rconv(a, q.update(off, f), k, m) == rat_add(
            rconv(a, q, k, m),
            if 0 <= k - off < m {
                rat_mul(a[k - off], f)
            } else {
                rat_zero()
            },
        ),
    decreases m,
{
    let q2 = q.update(off, f);
    lemma_zero_is_reduced();
    if m == 0 {
        lemma_rat_add_zero(rat_zero());
    } else {
        lemma_rconv_update(a, q, off, f, k, (m - 1) as nat);
        let i = m - 1;
        let j = k - i;
        let previous = rconv(a, q, k, (m - 1) as nat);
        lemma_rconv_reduced(a, q, k, (m - 1) as nat);
        assert(is_reduced(a[i]));
        let t = if 0 <= k - off < m {
            rat_mul(a[k - off], f)
        } else {
            rat_zero()
        };
        if 0 <= k - off < m {
            lemma_ops_same(a[k - off], f);
        }
        if 0 <= j < q.len() {
            assert(is_reduced(q[j]));
            lemma_ops_same(a[i], q[j]);
            if j == off {
                assert(k - off == i);
                lemma_rat_add_zero(previous);
                lemma_mul_zero(a[i]);
                assert(q2[j] == f);
            } else {
                assert(q2[j] == q[j]);
                lemma_add_swap(previous, t, rat_mul(a[i], q[j]));
            }
        } else {
            assert(k - off != i);
        }
    }
}

/// Trimming changes no coefficient of a reduced sequence.
pub proof fn lemma_rcoef_trim(s: Seq<(int, nat)>)
    requires
        all_reduced(s),
    ensures
        forall|k: int| #[trigger] rcoef(trim_rat(s), k) == rcoef(s, k),
        all_reduced(trim_rat(s)),
        is_trimmed_rat(trim_rat(s)),
{
    lemma_trim_rat(s);
    let t = trim_rat(s);
    assert forall|k: int| #[trigger] rcoef(t, k) == rcoef(s, k) by {
        if t.len() <= k < s.len() {
            assert(is_reduced(s[k]));
            lemma_zero_reduced(s[k]);
        }
    }
    assert forall|i: int| 0 <= i < t.len() implies is_reduced(#[trigger] t[i]) by {
        assert(t[i] == s[i]);
    }
}

/// Trimmed sequences with the same coefficients are equal.
pub proof fn lemma_rcoef_eq(s: Seq<(int, nat)>, t: Seq<(int, nat)>)
    requires
        is_trimmed_rat(s),
        is_trimmed_rat(t),
        forall|k: int| 0 <= k ==> #[trigger] rcoef(s, k) == rcoef(t, k),
    ensures
        s == t,
{
    if s.len() < t.len() {
        assert(rcoef(s, t.len() - 1) == rcoef(t, t.len() - 1));
    }
    if t.len() < s.len() {
        assert(rcoef(s, s.len() - 1) == rcoef(t, s.len() - 1));
    }
    assert forall|i: int| 0 <= i < s.len() implies s[i] == t[i] by {
        assert(rcoef(s, i) == rcoef(t, i));
    }
    assert(s =~= t);
}

/// The coefficients of a product are its partial sums over all rows.
pub proof fn lemma_rcoef_mul(b: Seq<(int, nat)>, q: Seq<(int, nat)>)
    requires
        all_reduced(b),
        all_reduced(q),
    ensures
        forall|k: int| 0 <= k ==> #[trigger] rcoef(rat_poly_mul(b, q), k) == rconv(b, q, k, b.len()),
        all_reduced(rat_poly_mul(b, q)),
        is_trimmed_rat(rat_poly_mul(b, q)),
{
    if b.len() == 0 || q.len() == 0 {
        assert forall|k: int| 0 <= k implies #[trigger] rcoef(rat_poly_mul(b, q), k) == rconv(
            b,
            q,
            k,
            b.len(),
        ) by {
            if q.len() == 0 {
                lemma_rconv_beyond(b, q, k, b.len());
            }
        }
    } else {
        let full = Seq::new((b.len() + q.len() - 1) as nat, |k: int| rconv(b, q, k, b.len()));
        assert forall|i: int| 0 <= i < full.len() implies is_reduced(#[trigger] full[i]) by {
            lemma_rconv_reduced(b, q, i, b.len());
        }
        lemma_rcoef_trim(full);
        assert forall|k: int| 0 <= k implies #[trigger] rcoef(rat_poly_mul(b, q), k) == rconv(
            b,
            q,
            k,
            b.len(),
        ) by {
            assert(rcoef(trim_rat(full), k) == rcoef(full, k));
            if k >= full.len() {
                lemma_rconv_beyond(b, q, k, b.len());
            }
        }
    }
}

/// The coefficients of a sum are the sums of the coefficients.
pub proof fn lemma_rcoef_add(x: Seq<(int, nat)>, y: Seq<(int, nat)>)
    requires
        all_reduced(x),
        all_reduced(y),
    ensures
        forall|k: int| 0 <= k ==> #[trigger] rcoef(rat_add_sub(x, y, false), k) == rat_add(
            rcoef(x, k),
            rcoef(y, k),
        ),
        all_reduced(rat_add_sub(x, y, false)),
        is_trimmed_rat(rat_add_sub(x, y, false)),
{
    lemma_zero_is_reduced();
    let full = Seq::new(max_nat(x.len(), y.len()), |i: int| rat_sum_at(x, y, false, i));
    assert forall|i: int| 0 <= i < full.len() implies is_reduced(#[trigger] full[i]) by {
        if 0 <= i < x.len() && 0 <= i < y.len() {
            assert(is_reduced(x[i]) && is_reduced(y[i]));
            lemma_ops_same(x[i], y[i]);
        } else if 0 <= i < x.len() {
            assert(is_reduced(x[i]));
        } else {
            assert(is_reduced(y[i]));
        }
    }
    lemma_rcoef_trim(full);
    assert forall|k: int| 0 <= k implies #[trigger] rcoef(rat_add_sub(x, y, false), k) == rat_add(
        rcoef(x, k),
        rcoef(y, k),
    ) by {
        assert(rcoef(trim_rat(full), k) == rcoef(full, k));
        if k < x.len() {
            assert(is_reduced(x[k]));
            lemma_rat_add_zero(x[k]);
        }
        if k < y.len() {
            assert(is_reduced(y[k]));
            lemma_rat_add_zero(y[k]);
        }
        if k >= x.len() && k >= y.len() {
            lemma_rat_add_zero(rat_zero());
        }
    }
}

/// The quotient of two reduced fractions, the second nonzero, is reduced.
proof fn lemma_div_reduced(x: (int, nat), y: (int, nat))
    requires
        x.1 > 0,
        y.0 != 0,
    ensures
        is_reduced(rat_div(x, y)),
        rat_div(x, y).1 > 0,
{
    lemma_positive_product(x.1, abs(y.0));
    lemma_reduced_form(
        if y.0 < 0 {
            -(x.0 * y.1)
        } else {
            x.0 * y.1
        },
        x.1 * abs(y.0),
    );
}

/// Long division keeps the dividend equal to the divisor times the quotient so far
/// plus the remainder so far.
pub proof fn lemma_long_division_invariant(
    a: Seq<(int, nat)>,
    r: Seq<(int, nat)>,
    b: Seq<(int, nat)>,
    q: Seq<(int, nat)>,
)
    requires
        is_divisor_poly(b),
        all_reduced(r),
        all_reduced(q),
        r.len() <= q.len() + b.len() - 1,
        forall|j: int| 0 <= j < q.len() && j + b.len() <= r.len() ==> #[trigger] q[j] == rat_zero(),
        forall|k: int| 0 <= k ==> #[trigger] rcoef(a, k) == rat_add(rconv(b, q, k, b.len()), rcoef(r, k)),
    ensures
        forall|k: int| 0 <= k ==> #[trigger] rcoef(a, k) == rat_add(
            rconv(b, long_division(r, b, q).0, k, b.len()),
            rcoef(long_division(r, b, q).1, k),
        ),
        all_reduced(long_division(r, b, q).0),
    decreases r.len(),
{
    if r.len() >= b.len() {
        let n = b.len();
        let off = r.len() - b.len();
        let x = r[r.len() - 1];
        let y = b[b.len() - 1];
        assert(is_reduced(x) && is_reduced(y));
        let f = rat_div(x, y);
        lemma_div_reduced(x, y);
        let r2 = division_step(r, b);
        let q2 = q.update(off, f);
        lemma_division_step(r, b);
        assert(q[off] == rat_zero());
        let full = Seq::new(
            r.len(),
            |k: int|
                if k >= off {
                    rat_sub(r[k], rat_mul(f, b[k - off]))
                } else {
                    r[k]
                },
        );
        assert(r2 == trim_rat(full));
        assert forall|i: int| 0 <= i < full.len() implies is_reduced(#[trigger] full[i]) by {
            assert(is_reduced(r[i]));
            if i >= off {
                assert(is_reduced(b[i - off]));
                lemma_ops_same(f, b[i - off]);
                lemma_ops_same(r[i], rat_mul(f, b[i - off]));
            }
        }
        lemma_rcoef_trim(full);
        assert forall|i: int| 0 <= i < q2.len() implies is_reduced(#[trigger] q2[i]) by {
            if i != off {
                assert(q2[i] == q[i]);
            }
        }
        assert forall|k: int| 0 <= k implies #[trigger] rcoef(a, k) == rat_add(
            rconv(b, q2, k, n),
            rcoef(r2, k),
        ) by {
            lemma_rconv_update(b, q, off, f, k, n);
            lemma_rconv_reduced(b, q, k, n);
            let xk = rconv(b, q, k, n);
            assert(rcoef(r2, k) == rcoef(full, k));
            assert(rcoef(a, k) == rat_add(xk, rcoef(r, k)));
            lemma_zero_is_reduced();
            if k < off {
                lemma_rat_add_zero(xk);
            } else if k < r.len() {
                let t = rat_mul(b[k - off], f);
                assert(is_reduced(b[k - off]));
                assert(is_reduced(r[k]));
                lemma_mul_comm(f, b[k - off]);
                lemma_ops_same(b[k - off], f);
                lemma_add_cancel(xk, t, r[k]);
            } else {
                lemma_rat_add_zero(xk);
            }
        }
        assert forall|j: int| 0 <= j < q2.len() && j + b.len() <= r2.len() implies #[trigger] q2[j]
            == rat_zero() by {
            assert(j != off);
            assert(q2[j] == q[j]);
        }
        lemma_long_division_invariant(a, r2, b, q2);
    }
}

/// Division reconstructs the dividend: the divisor times the quotient, plus the
/// remainder, is the dividend.
pub proof fn lemma_division_reconstructs(a: Seq<(int, nat)>, b: Seq<(int, nat)>)
    requires
        all_reduced(a),
        is_trimmed_rat(a),
        is_divisor_poly(b),
    ensures
        rat_add_sub(rat_poly_mul(b, rat_div_rem(a, b).0), rat_div_rem(a, b).1, false) == a,
{
    let quotient = rat_div_rem(a, b).0;
    let remainder = rat_div_rem(a, b).1;
    lemma_zero_is_reduced();
    if a.len() < b.len() {
        lemma_rcoef_mul(b, quotient);
        lemma_rcoef_add(rat_poly_mul(b, quotient), a);
        assert forall|k: int| 0 <= k implies #[trigger] rcoef(
            rat_add_sub(rat_poly_mul(b, quotient), a, false),
            k,
        ) == rcoef(a, k) by {
            lemma_rconv_beyond(b, quotient, k, b.len());
            if k < a.len() {
                assert(is_reduced(a[k]));
            }
            lemma_rat_add_zero(rcoef(a, k));
        }
        lemma_rcoef_eq(rat_add_sub(rat_poly_mul(b, quotient), a, false), a);
    } else {
        let n = b.len();
        let zeros = Seq::new((a.len() - b.len() + 1) as nat, |i: int| rat_zero());
        assert forall|k: int| 0 <= k implies #[trigger] rcoef(a, k) == rat_add(
            rconv(b, zeros, k, n),
            rcoef(a, k),
        ) by {
            lemma_rconv_zeros(b, (a.len() - b.len() + 1) as nat, k, n);
            if k < a.len() {
                assert(is_reduced(a[k]));
            }
            lemma_rat_add_zero(rcoef(a, k));
        }
        lemma_long_division_invariant(a, a, b, zeros);
        crate::polynomial::lemma_long_division_shape(a, b, zeros);
        let full_quotient = long_division(a, b, zeros).0;
        assert(quotient == trim_rat(full_quotient));
        assert(remainder == long_division(a, b, zeros).1);
        lemma_rcoef_trim(full_quotient);
        lemma_rcoef_mul(b, quotient);
        lemma_rcoef_add(rat_poly_mul(b, quotient), remainder);
        assert forall|k: int| 0 <= k implies #[trigger] rcoef(
            rat_add_sub(rat_poly_mul(b, quotient), remainder, false),
            k,
        ) == rcoef(a, k) by {
            lemma_rconv_ext(b, quotient, full_quotient, k, n);
        }
        lemma_rcoef_eq(rat_add_sub(rat_poly_mul(b, quotient), remainder, false), a);
    }
}

/// Integers as rationals are reduced, and a trimmed integer sequence stays trimmed.
pub proof fn lemma_as_rationals_shape(s: Seq<int>)
    ensures
        all_reduced(as_rationals(s)),
        is_trimmed(s) ==> is_trimmed_rat(as_rationals(s)),
        forall|k: int| #[trigger] rcoef(as_rationals(s), k) == (coef(s, k), 1nat),
{
    assert forall|i: int| 0 <= i < as_rationals(s).len() implies is_reduced(
        #[trigger] as_rationals(s)[i],
    ) by {
        lemma_reduced_integer(s[i]);
    }
}

/// On integer sequences the rational partial sums are the integer ones.
pub proof fn lemma_rconv_integral(a: Seq<int>, b: Seq<int>, k: int, m: nat)
    requires
        m <= a.len(),
    ensures
        rconv(as_rationals(a), as_rationals(b), k, m) == (conv(a, b, k, m), 1nat),
    decreases m,
{
    if m > 0 {
        lemma_rconv_integral(a, b, k, (m - 1) as nat);
        let j = k - (m - 1);
        let previous = conv(a, b, k, (m - 1) as nat);
        if 0 <= j < b.len() {
            lemma_rat_integer_ops(a[m - 1], b[j]);
            lemma_rat_integer_ops(previous, a[m - 1] * b[j]);
        } else {
            assert(coef(a, m - 1) * coef(b, j) == 0) by (nonlinear_arith)
                requires
                    coef(b, j) == 0,
            ;
        }
    }
}

/// Trimming commutes with reading integers as rationals.
pub proof fn lemma_trim_as_rationals(s: Seq<int>)
    ensures
        trim_rat(as_rationals(s)) == as_rationals(trim_int(s)),
    decreases s.len(),
{
    if s.len() > 0 && s[s.len() - 1] == 0 {
        lemma_trim_as_rationals(s.drop_last());
        assert(as_rationals(s).drop_last() =~= as_rationals(s.drop_last()));
    }
}

/// The rational product of integer polynomials is the integer product.
pub proof fn lemma_mul_integral(a: Seq<int>, b: Seq<int>)
    ensures
        rat_poly_mul(as_rationals(a), as_rationals(b)) == as_rationals(poly_mul(a, b)),
{
    if a.len() > 0 && b.len() > 0 {
        let full = Seq::new((a.len() + b.len() - 1) as nat, |k: int| conv(a, b, k, a.len()));
        let rfull = Seq::new(
            (a.len() + b.len() - 1) as nat,
            |k: int| rconv(as_rationals(a), as_rationals(b), k, a.len()),
        );
        assert forall|k: int| 0 <= k < rfull.len() implies rfull[k] == as_rationals(full)[k] by {
            lemma_rconv_integral(a, b, k, a.len());
        }
        assert(rfull =~= as_rationals(full));
        lemma_trim_as_rationals(full);
    } else {
        assert(as_rationals(poly_mul(a, b)) =~= Seq::<(int, nat)>::empty());
    }
}

/// Exact division reconstructs the dividend over the integers: when the rational
/// division of `p` by `d` leaves no remainder and an integral quotient, `d` times that
/// quotient is `p`.
pub proof fn lemma_exact_division_reconstructs(p: Seq<int>, d: Seq<int>)
    requires
        is_trimmed(p),
        is_trimmed(d),
        d.len() > 0,
        rat_div_rem(as_rationals(p), as_rationals(d)).1.len() == 0,
        all_integral(rat_div_rem(as_rationals(p), as_rationals(d)).0),
    ensures
        poly_mul(d, integer_parts(rat_div_rem(as_rationals(p), as_rationals(d)).0)) == p,
{
    let a = as_rationals(p);
    let b = as_rationals(d);
    let quotient = rat_div_rem(a, b).0;
    let q = integer_parts(quotient);
    lemma_as_rationals_shape(p);
    lemma_as_rationals_shape(d);
    lemma_division_reconstructs(a, b);
    assert forall|i: int| 0 <= i < quotient.len() implies quotient[i] == as_rationals(q)[i] by {
        assert(quotient[i].1 == 1);
    }
    assert(quotient =~= as_rationals(q));
    lemma_as_rationals_shape(q);
    lemma_rcoef_mul(b, quotient);
    let product = rat_poly_mul(b, quotient);
    let empty = rat_div_rem(a, b).1;
    lemma_rcoef_add(product, empty);
    assert forall|k: int| 0 <= k implies #[trigger] rcoef(rat_add_sub(product, empty, false), k)
        == rcoef(product, k) by {
        lemma_rconv_reduced(b, quotient, k, b.len());
        lemma_rat_add_zero(rcoef(product, k));
        if k < product.len() {
            assert(is_reduced(product[k]));
        }
    }
    lemma_rcoef_eq(rat_add_sub(product, empty, false), product);
    lemma_mul_integral(d, q);
    assert(as_rationals(poly_mul(d, q)) == as_rationals(p));
    assert forall|i: int| 0 <= i < p.len() implies poly_mul(d, q)[i] == p[i] by {
        assert(as_rationals(poly_mul(d, q))[i] == as_rationals(p)[i]);
    }
    assert(poly_mul(d, q) =~= p);
}

} // verus!
