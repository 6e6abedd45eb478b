//! Facts about the greatest common divisor that reduced fractions rest on.
use crate::natural::{divides, gcd_spec, lemma_common_divisor_divides_gcd, lemma_gcd_divides, lemma_gcd_positive, times};
use vstd::arithmetic::power::pow;
use vstd::prelude::*;

verus! {

/// `a` and `b` have no common factor but one.
pub open spec fn coprime(a: nat, b: nat) -> bool {
    gcd_spec(a, b) == 1
}

/// `a` raised to `e`, as a natural.
pub open spec fn pow_nat(a: nat, e: nat) -> nat {
    pow(a as int, e) as nat
}

/// Powers of naturals are naturals, and one more factor multiplies them.
pub proof fn lemma_pow_nat(a: nat, e: nat)
    ensures
        pow(a as int, e) >= 0,
        pow_nat(a, e) == pow(a as int, e),
        e == 0 ==> pow_nat(a, e) == 1,
        e > 0 ==> pow_nat(a, e) == a * pow_nat(a, (e - 1) as nat),
    decreases e,
{
    reveal(pow);
    if e > 0 {
        lemma_pow_nat(a, (e - 1) as nat);
        assert(a * pow(a as int, (e - 1) as nat) >= 0) by (nonlinear_arith)
            requires
                pow(a as int, (e - 1) as nat) >= 0,
        ;
    }
}

/// Only one divides one.
pub proof fn lemma_divides_one(d: nat)
    requires
        divides(d, 1),
    ensures
        d == 1,
{
    let k = choose|k: nat| 1 == times(k, d);
    assert(d == 1) by (nonlinear_arith)
        requires
            1 == k * d,
    ;
}

/// Anything is coprime to one.
pub proof fn lemma_coprime_one(a: nat)
    ensures
        coprime(a, 1),
{
    assert(a % 1 == 0);
    assert(gcd_spec(a, 1) == gcd_spec(1, a % 1));
    assert(gcd_spec(1, 0) == 1);
}

/// A common factor scales the gcd: `gcd(a * k, b * k) == gcd(a, b) * k`.
pub proof fn lemma_gcd_scale(a: nat, b: nat, k: nat)
    requires
        k > 0,
    ensures
        gcd_spec(a * k, b * k) == gcd_spec(a, b) * k,
    decreases b,
{
    if b > 0 {
        assert(b * k > 0) by (nonlinear_arith)
            requires
                b > 0,
                k > 0,
        ;
        vstd::arithmetic::div_mod::lemma_fundamental_div_mod(a as int, b as int);
        let q = a / b;
        let r = a % b;
        assert(a * k == q * (b * k) + r * k && 0 <= r * k < b * k) by (nonlinear_arith)
            requires
                a == b * q + r,
                0 <= r < b,
                k > 0,
        ;
        vstd::arithmetic::div_mod::lemma_fundamental_div_mod_converse(
            (a * k) as int,
            (b * k) as int,
            q as int,
            (r * k) as int,
        );
        assert((a * k) % (b * k) == r * k);
        lemma_gcd_scale(b, r, k);
    }
}

/// Dividing both numbers by their gcd leaves coprime numbers.
pub proof fn lemma_divided_by_gcd_coprime(a: nat, b: nat)
    requires
        a > 0 || b > 0,
    ensures
        gcd_spec(a, b) > 0,
        a % gcd_spec(a, b) == 0,
        b % gcd_spec(a, b) == 0,
        coprime(a / gcd_spec(a, b), b / gcd_spec(a, b)),
{
    let g = gcd_spec(a, b);
    lemma_gcd_positive(a, b);
    lemma_gcd_divides(a, b);
    let ka = choose|k: nat| a == times(k, g);
    let kb = choose|k: nat| b == times(k, g);
    vstd::arithmetic::div_mod::lemma_fundamental_div_mod_converse(a as int, g as int, ka as int, 0);
    vstd::arithmetic::div_mod::lemma_fundamental_div_mod_converse(b as int, g as int, kb as int, 0);
    lemma_gcd_scale(ka, kb, g);
    assert(gcd_spec(ka, kb) == 1) by (nonlinear_arith)
        requires
            gcd_spec(ka, kb) * g == g,
            g > 0,
    ;
}

/// Bézout's identity for the gcd: some `x` and `y` give `a * x + b * y == gcd(a, b)`.
pub proof fn lemma_bezout(a: nat, b: nat) -> (xy: (int, int))
    ensures
        a * xy.0 + b * xy.1 == gcd_spec(a, b),
    decreases b,
{
    if b == 0 {
        (1, 0)
    } else {
        let (x, y) = lemma_bezout(b, a % b);
        vstd::arithmetic::div_mod::lemma_fundamental_div_mod(a as int, b as int);
        let q = (a / b) as int;
        let r = (a % b) as int;
        let ai = a as int;
        let bi = b as int;
        assert(ai * y + bi * (x - q * y) == bi * x + r * y) by (nonlinear_arith)
            requires
                ai == bi * q + r,
        ;
        (y, x - q * y)
    }
}

/// A number coprime to two numbers is coprime to their product.
pub proof fn lemma_coprime_mul(a: nat, b: nat, c: nat)
    requires
        coprime(a, b),
        coprime(a, c),
    ensures
        coprime(a, b * c),
{
    let (x, y) = lemma_bezout(a, b);
    let (u, v) = lemma_bezout(a, c);
    let big_x = x * (a * u + c * v) + b * y * u;
    let big_y = y * v;
    assert(a * big_x + (b * c) * big_y == 1) by (nonlinear_arith)
        requires
            a * x + b * y == 1,
            a * u + c * v == 1,
            big_x == x * (a * u + c * v) + b * y * u,
            big_y == y * v,
    ;
    assert(a > 0 || b * c > 0) by (nonlinear_arith)
        requires
            a * big_x + (b * c) * big_y == 1,
    ;
    let g = gcd_spec(a, b * c);
    lemma_gcd_positive(a, b * c);
    lemma_gcd_divides(a, b * c);
    let ka = choose|k: nat| a == times(k, g);
    let kb = choose|k: nat| b * c == times(k, g);
    let t = ka * big_x + kb * big_y;
    let bc = b * c;
    assert(g * t == 1) by (nonlinear_arith)
        requires
            a == ka * g,
            bc == kb * g,
            a * big_x + bc * big_y == 1,
            t == ka * big_x + kb * big_y,
    ;
    assert(g == 1) by (nonlinear_arith)
        requires
            g * t == 1,
            g > 0,
    ;
}

/// Coprimality does not depend on the order of the arguments.
pub proof fn lemma_coprime_comm(a: nat, b: nat)
    requires
        coprime(a, b),
    ensures
        coprime(b, a),
{
    lemma_gcd_divides(b, a);
    lemma_common_divisor_divides_gcd(a, b, gcd_spec(b, a));
    lemma_divides_one(gcd_spec(b, a));
}

/// A number coprime to `b` is coprime to every power of `b`.
pub proof fn lemma_coprime_pow_right(a: nat, b: nat, e: nat)
    requires
        coprime(a, b),
    ensures
        coprime(a, pow_nat(b, e)),
    decreases e,
{
    lemma_pow_nat(b, e);
    if e == 0 {
        lemma_coprime_one(a);
    } else {
        lemma_coprime_pow_right(a, b, (e - 1) as nat);
        lemma_coprime_mul(a, b, pow_nat(b, (e - 1) as nat));
    }
}

/// Powers of coprime numbers are coprime.
pub proof fn lemma_coprime_pow(a: nat, b: nat, e: nat)
    requires
        coprime(a, b),
    ensures
        coprime(pow_nat(a, e), pow_nat(b, e)),
{
    lemma_coprime_pow_right(a, b, e);
    lemma_coprime_comm(a, pow_nat(b, e));
    lemma_coprime_pow_right(pow_nat(b, e), a, e);
    lemma_coprime_comm(pow_nat(b, e), pow_nat(a, e));
}

/// Euclid's lemma: a divisor of `b * c` coprime to `b` divides `c`.
pub proof fn lemma_coprime_divides(a: nat, b: nat, c: nat)
    requires
        coprime(a, b),
        divides(a, b * c),
    ensures
        divides(a, c),
{
    let (x, y) = lemma_bezout(a, b);
    let k = choose|k: nat| b * c == times(k, a);
    let m = c * x + k * y;
    assert(c == a * m) by (nonlinear_arith)
        requires
            a * x + b * y == 1,
            b * c == k * a,
            m == c * x + k * y,
    ;
    if a == 0 {
        assert(c == 0) by (nonlinear_arith)
            requires
                c == a * m,
                a == 0,
        ;
        assert(c == times(0, a));
    } else {
        assert(m >= 0) by (nonlinear_arith)
            requires
                c == a * m,
                a > 0,
                c >= 0,
        ;
        assert(c == times(m as nat, a));
    }
}

} // verus!
