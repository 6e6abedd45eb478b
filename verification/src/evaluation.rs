//! Evaluation of integer polynomials at integers, and the laws that tie it to the
//! arithmetic of polynomials: the value of a sum, difference, product or composition
//! is the sum, difference, product or composition of the values.
use crate::polynomial::{
    coef, conv, is_trimmed, lemma_coef_poly_mul, lemma_coef_trim, lemma_conv_extra_terms,
    lemma_trim_exact, lemma_trim_int, max_nat, poly_add_sub, poly_compose, poly_eval, poly_mul,
    sum_at, constant_poly, trim_int,
};
use vstd::prelude::*;

verus! {

/// `x` to the power `k`.
pub open spec fn int_pow(x: int, k: nat) -> int
    decreases k,
{
    if k == 0 {
        1
    } else {
        x * int_pow(x, (k - 1) as nat)
    }
}

/// The sum of the first `m` terms `coef(a, i) * x^i`.
pub open spec fn eval_terms(a: Seq<int>, x: int, m: nat) -> int
    decreases m,
{
    if m == 0 {
        0
    } else {
        eval_terms(a, x, (m - 1) as nat) + coef(a, m - 1) * int_pow(x, (m - 1) as nat)
    }
}

/// The sum over `k < bound` of coefficient `k` of `b` shifted up by `shift`, times `x^k`.
pub open spec fn shifted_terms(b: Seq<int>, shift: nat, x: int, bound: nat) -> int
    decreases bound,
{
    if bound == 0 {
        0
    } else {
        shifted_terms(b, shift, x, (bound - 1) as nat) + coef(b, bound - 1 - shift) * int_pow(
            x,
            (bound - 1) as nat,
        )
    }
}

/// The sum over `k < bound` of the first `m` terms of coefficient `k` of the product,
/// times `x^k`.
pub open spec fn conv_terms(a: Seq<int>, b: Seq<int>, m: nat, x: int, bound: nat) -> int
    decreases bound,
{
    if bound == 0 {
        0
    } else {
        conv_terms(a, b, m, x, (bound - 1) as nat) + conv(a, b, bound - 1, m) * int_pow(
            x,
            (bound - 1) as nat,
        )
    }
}

proof fn lemma_int_pow_add(x: int, i: nat, j: nat)
    ensures
        int_pow(x, i + j) == int_pow(x, i) * int_pow(x, j),
    decreases j,
{
    if j > 0 {
        lemma_int_pow_add(x, i, (j - 1) as nat);
        let p = int_pow(x, i);
        let q = int_pow(x, (j - 1) as nat);
        assert(int_pow(x, i + j) == x * int_pow(x, (i + j - 1) as nat));
        assert(x * (p * q) == p * (x * q)) by (nonlinear_arith);
    }
}

/// Splitting off the lowest term: the rest is the value of the higher coefficients,
/// times `x`.
proof fn lemma_eval_terms_first(a: Seq<int>, x: int, m: nat)
    requires
        a.len() > 0,
    ensures
        eval_terms(a, x, m + 1) == a[0] + x * eval_terms(a.drop_first(), x, m),
    decreases m,
{
    if m == 0 {
        assert(eval_terms(a, x, 1) == eval_terms(a, x, 0) + coef(a, 0) * int_pow(x, 0));
    } else {
        lemma_eval_terms_first(a, x, (m - 1) as nat);
        let rest = a.drop_first();
        let p = int_pow(x, (m - 1) as nat);
        assert(coef(rest, m - 1) == coef(a, m as int));
        let c = coef(a, m as int);
        let e = eval_terms(rest, x, (m - 1) as nat);
        assert(eval_terms(a, x, m + 1) == eval_terms(a, x, m) + c * int_pow(x, m));
        assert(int_pow(x, m) == x * p);
        assert(eval_terms(rest, x, m) == e + c * p);
        assert(c * (x * p) == x * (c * p)) by (nonlinear_arith);
        assert(x * (e + c * p) == x * e + x * (c * p)) by (nonlinear_arith);
    }
}

/// Horner's rule computes the sum of the terms.
pub proof fn lemma_poly_eval_terms(a: Seq<int>, x: int)
    ensures
        poly_eval(a, x) == eval_terms(a, x, a.len()),
    decreases a.len(),
{
    if a.len() > 0 {
        lemma_poly_eval_terms(a.drop_first(), x);
        lemma_eval_terms_first(a, x, (a.len() - 1) as nat);
    }
}

/// Terms past the last coefficient add nothing.
proof fn lemma_eval_terms_past_end(a: Seq<int>, x: int, m: nat)
    requires
        m >= a.len(),
    ensures
        eval_terms(a, x, m) == eval_terms(a, x, a.len()),
    decreases m,
{
    if m > a.len() {
        lemma_eval_terms_past_end(a, x, (m - 1) as nat);
    }
}

/// The terms of two sequences that agree coefficient by coefficient, up to `m`, with
/// the sum or difference of two others, add up accordingly.
proof fn lemma_eval_terms_sum(s: Seq<int>, a: Seq<int>, b: Seq<int>, subtract: bool, x: int, m: nat)
    requires
        forall|i: int| 0 <= i < m ==> #[trigger] coef(s, i) == sum_at(a, b, subtract, i),
    ensures
        eval_terms(s, x, m) == if subtract {
            eval_terms(a, x, m) - eval_terms(b, x, m)
        } else {
            eval_terms(a, x, m) + eval_terms(b, x, m)
        },
    decreases m,
{
    if m > 0 {
        let k = (m - 1) as nat;
        lemma_eval_terms_sum(s, a, b, subtract, x, k);
        assert(coef(s, k as int) == sum_at(a, b, subtract, k as int));
        let p = int_pow(x, k);
        let ca = coef(a, k as int);
        let cb = coef(b, k as int);
        assert((ca + cb) * p == ca * p + cb * p) by (nonlinear_arith);
        assert((ca - cb) * p == ca * p - cb * p) by (nonlinear_arith);
    }
}

/// Coefficient `i` of a sum or difference is the sum or difference of the coefficients.
pub proof fn lemma_coef_add_sub(a: Seq<int>, b: Seq<int>, subtract: bool, i: int)
    requires
        i >= 0,
    ensures
        coef(poly_add_sub(a, b, subtract), i) == sum_at(a, b, subtract, i),
{
    let s = Seq::new(max_nat(a.len(), b.len()), |j: int| sum_at(a, b, subtract, j));
    lemma_coef_trim(s, i);
}

/// The value of a sum (or difference) of polynomials is the sum (or difference) of
/// their values.
pub proof fn lemma_evaluation_of_sum(a: Seq<int>, b: Seq<int>, subtract: bool, x: int)
    ensures
        poly_eval(poly_add_sub(a, b, subtract), x) == if subtract {
            poly_eval(a, x) - poly_eval(b, x)
        } else {
            poly_eval(a, x) + poly_eval(b, x)
        },
{
    let s = poly_add_sub(a, b, subtract);
    let m = max_nat(a.len(), b.len());
    crate::polynomial::lemma_trim_int(Seq::new(m, |j: int| sum_at(a, b, subtract, j)));
    assert forall|i: int| 0 <= i < m implies #[trigger] coef(s, i) == sum_at(a, b, subtract, i) by {
        lemma_coef_add_sub(a, b, subtract, i);
    }
    lemma_eval_terms_sum(s, a, b, subtract, x, m);
    lemma_poly_eval_terms(s, x);
    lemma_poly_eval_terms(a, x);
    lemma_poly_eval_terms(b, x);
    lemma_eval_terms_past_end(s, x, m);
    lemma_eval_terms_past_end(a, x, m);
    lemma_eval_terms_past_end(b, x, m);
}

/// Shifting the coefficients up by `shift` multiplies the value by `x^shift`.
proof fn lemma_shifted_terms(b: Seq<int>, shift: nat, x: int, bound: nat)
    ensures
        shifted_terms(b, shift, x, bound) == if bound >= shift {
            int_pow(x, shift) * eval_terms(b, x, (bound - shift) as nat)
        } else {
            0
        },
    decreases bound,
{
    if bound > 0 {
        let k = (bound - 1) as nat;
        lemma_shifted_terms(b, shift, x, k);
        if bound > shift {
            let j = (k - shift) as nat;
            lemma_int_pow_add(x, shift, j);
            assert(shift + j == k);
            let p = int_pow(x, shift);
            let q = int_pow(x, j);
            let c = coef(b, j as int);
            let e = eval_terms(b, x, j);
            assert(eval_terms(b, x, j + 1) == e + c * q);
            if k >= shift {
                assert(shifted_terms(b, shift, x, k) == p * e);
            } else {
                assert(j == 0);
                assert(e == 0);
            }
            assert(c * (p * q) == p * (c * q)) by (nonlinear_arith);
            assert(p * (e + c * q) == p * e + p * (c * q)) by (nonlinear_arith);
        } else {
            assert(coef(b, bound - 1 - shift) == 0);
            if bound == shift {
                assert(eval_terms(b, x, 0) == 0);
                assert(shifted_terms(b, shift, x, k) == 0);
            }
        }
    }
}

/// Adding term `m` to every convolution sum adds the shifted right polynomial, scaled by
/// coefficient `m` of the left one.
proof fn lemma_conv_terms_step(a: Seq<int>, b: Seq<int>, m: nat, x: int, bound: nat)
    ensures
        conv_terms(a, b, m + 1, x, bound) == conv_terms(a, b, m, x, bound) + coef(a, m as int)
            * shifted_terms(b, m, x, bound),
    decreases bound,
{
    if bound > 0 {
        let k = (bound - 1) as nat;
        lemma_conv_terms_step(a, b, m, x, k);
        let p = int_pow(x, k);
        let c = coef(a, m as int);
        let d = coef(b, k - m);
        let v = conv(a, b, k as int, m);
        let s = shifted_terms(b, m, x, k);
        assert(conv(a, b, k as int, m + 1) == v + c * d);
        assert((v + c * d) * p == v * p + c * (d * p)) by (nonlinear_arith);
        assert(c * (s + d * p) == c * s + c * (d * p)) by (nonlinear_arith);
    }
}

proof fn lemma_conv_terms_empty(a: Seq<int>, b: Seq<int>, x: int, bound: nat)
    ensures
        conv_terms(a, b, 0, x, bound) == 0,
    decreases bound,
{
    if bound > 0 {
        lemma_conv_terms_empty(a, b, x, (bound - 1) as nat);
    }
}

/// With room for every product term, the convolution sums add up to the product of the
/// values.
proof fn lemma_conv_terms_product(a: Seq<int>, b: Seq<int>, m: nat, x: int, bound: nat)
    requires
        m + b.len() <= bound + 1,
    ensures
        conv_terms(a, b, m, x, bound) == eval_terms(a, x, m) * eval_terms(b, x, b.len()),
    decreases m,
{
    let e = eval_terms(b, x, b.len());
    if m == 0 {
        lemma_conv_terms_empty(a, b, x, bound);
    } else {
        let k = (m - 1) as nat;
        lemma_conv_terms_product(a, b, k, x, bound);
        lemma_conv_terms_step(a, b, k, x, bound);
        lemma_shifted_terms(b, k, x, bound);
        lemma_eval_terms_past_end(b, x, (bound - k) as nat);
        let c = coef(a, k as int);
        let p = int_pow(x, k);
        let t = eval_terms(a, x, k);
        assert(c * (p * e) == (c * p) * e) by (nonlinear_arith);
        assert(t * e + (c * p) * e == (t + c * p) * e) by (nonlinear_arith);
    }
}

/// The value of a product of polynomials is the product of their values.
pub proof fn lemma_evaluation_of_product(a: Seq<int>, b: Seq<int>, x: int)
    ensures
        poly_eval(poly_mul(a, b), x) == poly_eval(a, x) * poly_eval(b, x),
{
    lemma_poly_eval_terms(a, x);
    lemma_poly_eval_terms(b, x);
    if a.len() == 0 || b.len() == 0 {
        assert(eval_terms(a, x, a.len()) * eval_terms(b, x, b.len()) == 0) by {
            if a.len() == 0 {
                assert(eval_terms(a, x, 0) == 0);
            } else {
                assert(eval_terms(b, x, 0) == 0);
            }
        }
    } else {
        let s = poly_mul(a, b);
        let bound = (a.len() + b.len() - 1) as nat;
        crate::polynomial::lemma_trim_int(
            Seq::new(bound, |k: int| conv(a, b, k, a.len())),
        );
        lemma_poly_eval_terms(s, x);
        lemma_eval_terms_past_end(s, x, bound);
        lemma_eval_terms_conv(s, a, b, x, bound);
        lemma_conv_terms_product(a, b, a.len(), x, bound);
    }
}

/// The terms of the product are the convolution sums.
proof fn lemma_eval_terms_conv(s: Seq<int>, a: Seq<int>, b: Seq<int>, x: int, bound: nat)
    requires
        s == poly_mul(a, b),
    ensures
        eval_terms(s, x, bound) == conv_terms(a, b, a.len(), x, bound),
    decreases bound,
{
    if bound > 0 {
        let k = (bound - 1) as nat;
        lemma_eval_terms_conv(s, a, b, x, k);
        lemma_coef_poly_mul(a, b, k as int);
    }
}

/// The value of a composition is the outer polynomial's value at the inner one's value.
pub proof fn lemma_evaluation_of_composition(a: Seq<int>, t: Seq<int>, x: int)
    ensures
        poly_eval(poly_compose(a, t), x) == poly_eval(a, poly_eval(t, x)),
    decreases a.len(),
{
    if a.len() > 0 {
        let rest = a.drop_first();
        lemma_evaluation_of_composition(rest, t, x);
        let inner = poly_mul(poly_compose(rest, t), t);
        lemma_evaluation_of_product(poly_compose(rest, t), t, x);
        lemma_evaluation_of_sum(inner, constant_poly(a[0]), false, x);
        let y = poly_eval(t, x);
        let r = poly_eval(rest, y);
        assert(poly_eval(constant_poly(a[0]), x) == a[0]) by {
            if a[0] != 0 {
                let c = constant_poly(a[0]);
                assert(c.drop_first() =~= Seq::<int>::empty());
                assert(poly_eval(c.drop_first(), x) == 0);
                assert(x * 0 == 0);
            }
        }
        assert(r * y == y * r) by (nonlinear_arith);
    }
}

/// Two trimmed polynomials with the same value at every integer are equal.
pub proof fn lemma_identity_by_evaluation(u: Seq<int>, v: Seq<int>)
    requires
        is_trimmed(u),
        is_trimmed(v),
        forall|x: int| #[trigger] poly_eval(u, x) == poly_eval(v, x),
    ensures
        u == v,
{
    let d = poly_add_sub(u, v, true);
    let m = max_nat(u.len(), v.len());
    lemma_trim_int(Seq::new(m, |j: int| sum_at(u, v, true, j)));
    if d.len() > 0 {
        let roots = Seq::new(d.len(), |i: int| i);
        assert forall|i: int| 0 <= i < roots.len() implies poly_eval(d, #[trigger] roots[i]) == 0 by {
            lemma_evaluation_of_sum(u, v, true, roots[i]);
            assert(poly_eval(u, roots[i]) == poly_eval(v, roots[i]));
        }
        crate::factor::lemma_root_bound(d, roots);
    }
    assert forall|i: int| 0 <= i < m implies #[trigger] coef(u, i) == coef(v, i) by {
        lemma_coef_add_sub(u, v, true, i);
    }
    if u.len() < v.len() {
        assert(coef(u, v.len() - 1) == coef(v, v.len() - 1));
    }
    if v.len() < u.len() {
        assert(coef(u, u.len() - 1) == coef(v, u.len() - 1));
    }
    assert forall|i: int| 0 <= i < u.len() implies u[i] == v[i] by {
        assert(coef(u, i) == coef(v, i));
    }
    assert(u =~= v);
}

/// A product of polynomials is trimmed.
pub proof fn lemma_poly_mul_trimmed(a: Seq<int>, b: Seq<int>)
    ensures
        is_trimmed(poly_mul(a, b)),
{
    if a.len() > 0 && b.len() > 0 {
        lemma_trim_int(Seq::new((a.len() + b.len() - 1) as nat, |k: int| conv(a, b, k, a.len())));
    }
}

/// Multiplication of polynomials commutes.
pub proof fn lemma_poly_mul_commutative(a: Seq<int>, b: Seq<int>)
    ensures
        poly_mul(a, b) == poly_mul(b, a),
{
    lemma_poly_mul_trimmed(a, b);
    lemma_poly_mul_trimmed(b, a);
    assert forall|x: int| #[trigger] poly_eval(poly_mul(a, b), x) == poly_eval(poly_mul(b, a), x) by {
        lemma_evaluation_of_product(a, b, x);
        lemma_evaluation_of_product(b, a, x);
        assert(poly_eval(a, x) * poly_eval(b, x) == poly_eval(b, x) * poly_eval(a, x)) by (nonlinear_arith);
    }
    lemma_identity_by_evaluation(poly_mul(a, b), poly_mul(b, a));
}

/// Multiplication of polynomials is associative.
pub proof fn lemma_poly_mul_associative(a: Seq<int>, b: Seq<int>, c: Seq<int>)
    ensures
        poly_mul(poly_mul(a, b), c) == poly_mul(a, poly_mul(b, c)),
{
    lemma_poly_mul_trimmed(poly_mul(a, b), c);
    lemma_poly_mul_trimmed(a, poly_mul(b, c));
    assert forall|x: int| #[trigger] poly_eval(poly_mul(poly_mul(a, b), c), x) == poly_eval(
        poly_mul(a, poly_mul(b, c)),
        x,
    ) by {
        lemma_evaluation_of_product(poly_mul(a, b), c, x);
        lemma_evaluation_of_product(a, b, x);
        lemma_evaluation_of_product(a, poly_mul(b, c), x);
        lemma_evaluation_of_product(b, c, x);
        let (p, q, r) = (poly_eval(a, x), poly_eval(b, x), poly_eval(c, x));
        assert((p * q) * r == p * (q * r)) by (nonlinear_arith);
    }
    lemma_identity_by_evaluation(poly_mul(poly_mul(a, b), c), poly_mul(a, poly_mul(b, c)));
}

/// One is neutral for the multiplication of trimmed polynomials.
pub proof fn lemma_poly_mul_one(a: Seq<int>)
    requires
        is_trimmed(a),
    ensures
        poly_mul(a, seq![1int]) == a,
        poly_mul(seq![1int], a) == a,
{
    lemma_poly_mul_trimmed(a, seq![1int]);
    lemma_poly_mul_trimmed(seq![1int], a);
    assert forall|x: int| #[trigger] poly_eval(poly_mul(a, seq![1int]), x) == poly_eval(a, x) by {
        lemma_evaluation_of_product(a, seq![1int], x);
        lemma_constant_value(1, x);
    }
    assert forall|x: int| #[trigger] poly_eval(poly_mul(seq![1int], a), x) == poly_eval(a, x) by {
        lemma_evaluation_of_product(seq![1int], a, x);
        lemma_constant_value(1, x);
    }
    lemma_identity_by_evaluation(poly_mul(a, seq![1int]), a);
    lemma_identity_by_evaluation(poly_mul(seq![1int], a), a);
}

/// A one-coefficient polynomial has its coefficient as its value everywhere.
proof fn lemma_constant_value(c: int, x: int)
    ensures
        poly_eval(seq![c], x) == c,
{
    assert(seq![c].drop_first().len() == 0);
    assert(poly_eval(seq![c].drop_first(), x) == 0);
    assert(x * 0 == 0);
}

/// The product of trimmed nonzero polynomials has as many coefficients as both
/// together, less one: the leading coefficients multiply.
pub proof fn lemma_poly_mul_len(a: Seq<int>, b: Seq<int>)
    requires
        is_trimmed(a),
        is_trimmed(b),
        a.len() > 0,
        b.len() > 0,
    ensures
        poly_mul(a, b).len() == a.len() + b.len() - 1,
{
    let n = (a.len() + b.len() - 1) as nat;
    let top = n - 1;
    let s = Seq::new(n, |k: int| conv(a, b, k, a.len()));
    lemma_conv_extra_terms(a, b, top, 0, (a.len() - 1) as nat);
    let la = a[a.len() - 1];
    let lb = b[b.len() - 1];
    assert(coef(b, top - (a.len() - 1)) == lb);
    assert(la * lb != 0) by (nonlinear_arith)
        requires
            la != 0,
            lb != 0,
    ;
    assert(s[top] == la * lb);
    lemma_trim_exact(s, n);
    assert(s.subrange(0, n as int) =~= s);
}

} // verus!
