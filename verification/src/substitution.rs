//! Polynomial substitutions behind the arithmetic of algebraic numbers: constants and
//! monomials, the reciprocal polynomial, `p(x^d)`, and the bivariate polynomials
//! `p(±x ± y)` and `y^n p(x / y)` listed by powers of `y`, each coefficient of `y` an
//! integer polynomial in `x`.
use crate::algnum_error::{
    reserve_elements, resource_failure, AlgnumError, AllocationResource, RepresentationResource,
};
use crate::evaluation::lemma_coef_add_sub;
use crate::integer::{BigInt, Sign};
use crate::natural::BigUint;
use crate::polynomial::{coef, constant_poly, int_values, is_trimmed, trim_int, Polynomial};
use crate::resultant::poly_views;
use vstd::prelude::*;

verus! {

/// `c * x^power`.
pub open spec fn monomial(power: nat, c: int) -> Seq<int> {
    if c == 0 {
        Seq::empty()
    } else {
        Seq::new(
            power + 1,
            |i: int|
                if i == power {
                    c
                } else {
                    0
                },
        )
    }
}

/// The binomial coefficient `n` choose `k`.
pub open spec fn binomial(n: nat, k: nat) -> nat
    decreases n,
{
    if k == 0 {
        1
    } else if n == 0 {
        0
    } else {
        binomial((n - 1) as nat, (k - 1) as nat) + binomial((n - 1) as nat, k)
    }
}

/// Coefficient `i` of `x` in coefficient `j` of `y` of `p(±x ± y)`: the coefficient of
/// degree `i + j` of `p` times `i + j` choose `j`, negated when exactly one of `x^i` and
/// `y^j` carries an odd power of a negated variable.
pub open spec fn signed_term(p: Seq<int>, negative_x: bool, negative_y: bool, i: int, j: int) -> int {
    let value = p[i + j] * binomial((i + j) as nat, j as nat);
    if (negative_y && j % 2 == 1) != (negative_x && i % 2 == 1) {
        -value
    } else {
        value
    }
}

/// The polynomial `p(x^d)`; for `d = 0`, the constant that the last write leaves.
pub open spec fn root_power_substitution(p: Seq<int>, d: nat) -> Seq<int> {
    if d == 0 {
        seq![p[p.len() - 1]]
    } else {
        Seq::new(
            ((p.len() - 1) * d + 1) as nat,
            |k: int|
                if k % (d as int) == 0 {
                    p[k / (d as int)]
                } else {
                    0
                },
        )
    }
}

/// `(k + 1)` times `n` choose `k + 1` is `(n - k)` times `n` choose `k`.
pub proof fn lemma_binomial_step(n: nat, k: nat)
    requires
        k <= n,
    ensures
        (k + 1) * binomial(n, k + 1) == (n - k) * binomial(n, k),
    decreases n,
{
    if n == 0 {
    } else if k == n {
        lemma_binomial_zero((n - 1) as nat, k);
        lemma_binomial_zero((n - 1) as nat, (k + 1) as nat);
        assert(binomial(n, k + 1) == binomial((n - 1) as nat, k) + binomial(
            (n - 1) as nat,
            k + 1,
        ));
    } else {
        let m = (n - 1) as nat;
        lemma_binomial_step(m, k);
        let a = binomial(m, k);
        let b = binomial(m, k + 1);
        assert(binomial(n, k + 1) == a + b);
        if k == 0 {
            assert(binomial(n, 0) == 1);
            assert(a == 1);
            assert((k + 1) * (a + b) == (n - k) * 1) by (nonlinear_arith)
                requires
                    (k + 1) * b == (m - k) * a,
                    a == 1,
                    k == 0,
                    m == n - 1,
            ;
        } else {
            lemma_binomial_step(m, (k - 1) as nat);
            let c = binomial(m, (k - 1) as nat);
            assert(binomial(n, k) == c + a);
            assert((k + 1) * (a + b) == (n - k) * (c + a)) by (nonlinear_arith)
                requires
                    (k + 1) * b == (m - k) * a,
                    k * a == (m - (k - 1)) * c,
                    m == n - 1,
                    k >= 1,
                    k < n,
            ;
        }
    }
}

/// Choosing more than there are gives zero.
proof fn lemma_binomial_zero(n: nat, k: nat)
    requires
        k > n,
    ensures
        binomial(n, k) == 0,
    decreases n,
{
    if n > 0 {
        lemma_binomial_zero((n - 1) as nat, (k - 1) as nat);
        lemma_binomial_zero((n - 1) as nat, k);
    }
}

/// The constant polynomial `value`.
pub fn constant_polynomial(value: &BigInt) -> (r: Result<Polynomial, AlgnumError>)
    ensures
        match r {
            Ok(p) => p@ == constant_poly(value@),
            Err(e) => resource_failure(e),
        },
{
    if value.is_zero() {
        return Ok(Polynomial::zero());
    }
    let mut coefficients: Vec<BigInt> = Vec::new();
    reserve_elements(&mut coefficients, 1, AllocationResource::ResultantCoefficients)?;
    let copy = match value.try_clone() {
        Ok(v) => v,
        Err(error) => return Err(AlgnumError::Bigint(error)),
    };
    coefficients.push(copy);
    proof {
        assert(int_values(coefficients@) =~= seq![value@]);
    }
    Ok(Polynomial::from_coefficients(coefficients))
}

/// The failure for a coefficient count one past `usize::MAX`.
pub(crate) fn coefficient_count_overflow() -> (r: AlgnumError)
    ensures
        resource_failure(r),
        r matches AlgnumError::RepresentationLimit { resource, required, maximum } ==> resource
            == RepresentationResource::CoefficientCount && required@ == usize::MAX + 1
            && maximum@ == usize::MAX,
{
    let maximum = match BigUint::try_from(usize::MAX) {
        Ok(value) => value,
        Err(error) => return AlgnumError::Bigint(error),
    };
    let one = match BigUint::one() {
        Ok(value) => value,
        Err(error) => return AlgnumError::Bigint(error),
    };
    let required = match maximum.add(&one) {
        Ok(value) => value,
        Err(error) => return AlgnumError::Bigint(error),
    };
    AlgnumError::RepresentationLimit {
        resource: RepresentationResource::CoefficientCount,
        required,
        maximum,
    }
}

/// The monomial `coefficient * x^power`.
pub fn monomial_polynomial(power: usize, coefficient: BigInt) -> (r: Result<Polynomial, AlgnumError>)
    ensures
        match r {
            Ok(p) => p@ == monomial(power as nat, coefficient@),
            Err(e) => resource_failure(e),
        },
{
    if coefficient.is_zero() {
        return Ok(Polynomial::zero());
    }
    let count = match power.checked_add(1) {
        Some(value) => value,
        None => return Err(coefficient_count_overflow()),
    };
    let mut coefficients: Vec<BigInt> = Vec::new();
    reserve_elements(&mut coefficients, count, AllocationResource::ResultantCoefficients)?;
    let mut index: usize = 0;
    while index < power
        invariant
            index <= power,
            coefficients@.len() == index,
            forall|i: int| 0 <= i < index ==> #[trigger] coefficients@[i]@ == 0,
        decreases power - index,
    {
        coefficients.push(BigInt::zero());
        index = index + 1;
    }
    let ghost c = coefficient@;
    coefficients.push(coefficient);
    proof {
        assert(int_values(coefficients@) =~= monomial(power as nat, c));
    }
    Ok(Polynomial::from_coefficients(coefficients))
}

/// The polynomial in `y` whose coefficients are the constants of `polynomial`.
pub fn constant_y_polynomial(polynomial: &Polynomial) -> (r: Result<Vec<Polynomial>, AlgnumError>)
    ensures
        match r {
            Ok(v) => poly_views(v@) == Seq::new(
                polynomial@.len(),
                |i: int| constant_poly(polynomial@[i]),
            ),
            Err(e) => resource_failure(e),
        },
{
    let source = polynomial.coefficients();
    let mut result: Vec<Polynomial> = Vec::new();
    reserve_elements(&mut result, source.len(), AllocationResource::ResultantCoefficients)?;
    let mut index: usize = 0;
    while index < source.len()
        invariant
            int_values(source@) == polynomial@,
            index <= source@.len(),
            result@.len() == index,
            forall|i: int| 0 <= i < index ==> #[trigger] result@[i]@ == constant_poly(source@[i]@),
        decreases source@.len() - index,
    {
        let constant = constant_polynomial(&source[index])?;
        result.push(constant);
        index = index + 1;
    }
    proof {
        assert(poly_views(result@) =~= Seq::new(
            polynomial@.len(),
            |i: int| constant_poly(polynomial@[i]),
        ));
    }
    Ok(result)
}

/// The coefficients in reverse order: `x^n p(1 / x)` for `p` of degree `n`, high zeros
/// dropped.
pub fn reciprocal_polynomial(polynomial: &Polynomial) -> (r: Result<Polynomial, AlgnumError>)
    ensures
        match r {
            Ok(p) => p@ == trim_int(polynomial@.reverse()),
            Err(e) => resource_failure(e),
        },
{
    let source = polynomial.coefficients();
    let mut coefficients: Vec<BigInt> = Vec::new();
    reserve_elements(&mut coefficients, source.len(), AllocationResource::PolynomialCoefficients)?;
    let mut remaining = source.len();
    while remaining > 0
        invariant
            int_values(source@) == polynomial@,
            remaining <= source@.len(),
            coefficients@.len() == source@.len() - remaining,
            forall|i: int|
                0 <= i < coefficients@.len() ==> #[trigger] coefficients@[i]@ == source@[source@.len()
                    - 1 - i]@,
        decreases remaining,
    {
        remaining = remaining - 1;
        let copy = match source[remaining].try_clone() {
            Ok(v) => v,
            Err(error) => return Err(AlgnumError::Bigint(error)),
        };
        coefficients.push(copy);
    }
    proof {
        assert(int_values(coefficients@) =~= polynomial@.reverse());
    }
    Ok(Polynomial::from_coefficients(coefficients))
}

/// `value` as a `usize`, if at most the largest that the resource allows: `usize::MAX - 1`
/// for a polynomial degree, `usize::MAX` otherwise.
pub fn biguint_usize(value: &BigUint, resource: RepresentationResource) -> (r: Result<
    usize,
    AlgnumError,
>)
    ensures
        ({
            let maximum: int = if resource == RepresentationResource::PolynomialDegree {
                usize::MAX - 1
            } else {
                usize::MAX as int
            };
            match r {
                Ok(v) => v == value@ && value@ <= maximum,
                Err(e) => (e matches AlgnumError::Bigint(b) && (b is AllocationFailure
                    || b is CapacityOverflow)) || (value@ > maximum && (e matches AlgnumError::RepresentationLimit {
                    resource: found,
                    required,
                    maximum: limit,
                } && found == resource && required@ == value@ && limit@ == maximum)),
            }
        }),
{
    let maximum_usize = match resource {
        RepresentationResource::PolynomialDegree => usize::MAX - 1,
        _ => usize::MAX,
    };
    let maximum = match BigUint::try_from(maximum_usize) {
        Ok(v) => v,
        Err(error) => return Err(AlgnumError::Bigint(error)),
    };
    if !maximum.less_than(value) {
        return Ok(value.to_usize_within());
    }
    let required = match value.try_clone() {
        Ok(v) => v,
        Err(error) => return Err(AlgnumError::Bigint(error)),
    };
    Err(AlgnumError::RepresentationLimit { resource, required, maximum })
}

/// The sign with the opposite direction; zero stays zero.
fn opposite_sign(sign: Sign) -> (r: Sign)
    ensures
        r == match sign {
            Sign::Negative => Sign::Positive,
            Sign::Zero => Sign::Zero,
            Sign::Positive => Sign::Negative,
        },
{
    match sign {
        Sign::Negative => Sign::Positive,
        Sign::Zero => Sign::Zero,
        Sign::Positive => Sign::Negative,
    }
}

/// `y^n p(x / y)` for `p` of degree `n`, by powers of `y`: coefficient `j` of `y` is the
/// monomial `p_(n-j) x^(n-j)`; the zero polynomial is refused.
pub fn multiplication_substitution(polynomial: &Polynomial) -> (r: Result<
    Vec<Polynomial>,
    AlgnumError,
>)
    ensures
        polynomial@.len() == 0 ==> r == Err::<Vec<Polynomial>, AlgnumError>(
            AlgnumError::ZeroPolynomial,
        ),
        polynomial@.len() > 0 ==> match r {
            Ok(v) => poly_views(v@) == Seq::new(
                polynomial@.len(),
                |j: int|
                    monomial(
                        (polynomial@.len() - 1 - j) as nat,
                        polynomial@[polynomial@.len() - 1 - j],
                    ),
            ),
            Err(e) => resource_failure(e),
        },
{
    let degree = match polynomial.degree() {
        Some(d) => d,
        None => return Err(AlgnumError::ZeroPolynomial),
    };
    let source = polynomial.coefficients();
    let mut result: Vec<Polynomial> = Vec::new();
    reserve_elements(&mut result, source.len(), AllocationResource::ResultantCoefficients)?;
    let total = source.len();
    let mut fill: usize = 0;
    while fill < total
        invariant
            degree + 1 == source@.len(),
            total == source@.len(),
            int_values(source@) == polynomial@,
            fill <= total,
            result@.len() == fill,
        decreases total - fill,
    {
        result.push(Polynomial::zero());
        fill = fill + 1;
    }
    let mut x_power: usize = 0;
    while x_power < source.len()
        invariant
            degree + 1 == source@.len(),
            int_values(source@) == polynomial@,
            x_power <= source@.len(),
            result@.len() == source@.len(),
            forall|j: int|
                0 <= j < result@.len() && degree - j < x_power ==> #[trigger] result@[j]@
                    == monomial((degree - j) as nat, polynomial@[degree - j]),
        decreases source@.len() - x_power,
    {
        let copy = match source[x_power].try_clone() {
            Ok(v) => v,
            Err(error) => return Err(AlgnumError::Bigint(error)),
        };
        let term = monomial_polynomial(x_power, copy)?;
        let ghost before = result@;
        result.set(degree - x_power, term);
        proof {
            assert forall|j: int|
                0 <= j < result@.len() && degree - j < x_power + 1 implies #[trigger] result@[j]@
                == monomial((degree - j) as nat, polynomial@[degree - j]) by {
                if j != degree - x_power {
                    assert(result@[j] == before[j]);
                }
            }
        }
        x_power = x_power + 1;
    }
    proof {
        assert(poly_views(result@) =~= Seq::new(
            polynomial@.len(),
            |j: int|
                monomial((polynomial@.len() - 1 - j) as nat, polynomial@[polynomial@.len() - 1 - j]),
        ));
    }
    Ok(result)
}

/// `p(x^degree)`; the zero polynomial is refused, and a degree past `usize::MAX - 1` is
/// reported.
pub fn substitute_root_power(polynomial: &Polynomial, degree: u32) -> (r: Result<
    Polynomial,
    AlgnumError,
>)
    ensures
        polynomial@.len() == 0 ==> r == Err::<Polynomial, AlgnumError>(
            AlgnumError::ZeroPolynomial,
        ),
        polynomial@.len() > 0 ==> match r {
            Ok(p) => p@ == trim_int(root_power_substitution(polynomial@, degree as nat)),
            Err(e) => resource_failure(e),
        },
{
    let input_degree = match polynomial.degree() {
        Some(d) => d,
        None => return Err(AlgnumError::ZeroPolynomial),
    };
    let left = match BigUint::try_from(input_degree) {
        Ok(v) => v,
        Err(error) => return Err(AlgnumError::Bigint(error)),
    };
    let right = match BigUint::try_from(degree) {
        Ok(v) => v,
        Err(error) => return Err(AlgnumError::Bigint(error)),
    };
    let result_degree = match left.mul(&right) {
        Ok(v) => v,
        Err(error) => return Err(AlgnumError::Bigint(error)),
    };
    let result_degree_usize = biguint_usize(
        &result_degree,
        RepresentationResource::PolynomialDegree,
    )?;
    let count = result_degree_usize + 1;
    let ghost target = root_power_substitution(polynomial@, degree as nat);
    let mut coefficients: Vec<BigInt> = Vec::new();
    reserve_elements(&mut coefficients, count, AllocationResource::PolynomialCoefficients)?;
    let mut fill: usize = 0;
    while fill < count
        invariant
            fill <= count,
            coefficients@.len() == fill,
            forall|k: int| 0 <= k < fill ==> #[trigger] coefficients@[k]@ == 0,
        decreases count - fill,
    {
        coefficients.push(BigInt::zero());
        fill = fill + 1;
    }
    let source = polynomial.coefficients();
    let step = degree as usize;
    let mut index: usize = 0;
    while index < source.len()
        invariant
            int_values(source@) == polynomial@,
            source@.len() == input_degree + 1,
            count == input_degree * step + 1,
            step == degree,
            coefficients@.len() == count,
            index <= source@.len(),
            forall|k: int|
                0 <= k < count ==> #[trigger] coefficients@[k]@ == if step == 0 {
                    if k == 0 && index > 0 {
                        polynomial@[index - 1]
                    } else {
                        0
                    }
                } else if k % (step as int) == 0 && k / (step as int) < index {
                    polynomial@[k / (step as int)]
                } else {
                    0
                },
        decreases source@.len() - index,
    {
        proof {
            assert(index * step <= input_degree * step) by (nonlinear_arith)
                requires
                    index <= input_degree,
            ;
        }
        let slot = index * step;
        let copy = match source[index].try_clone() {
            Ok(v) => v,
            Err(error) => return Err(AlgnumError::Bigint(error)),
        };
        let ghost before = coefficients@;
        coefficients.set(slot, copy);
        proof {
            assert forall|k: int| 0 <= k < count implies #[trigger] coefficients@[k]@ == if step
                == 0 {
                if k == 0 && index + 1 > 0 {
                    polynomial@[index as int]
                } else {
                    0
                }
            } else if k % (step as int) == 0 && k / (step as int) < index + 1 {
                polynomial@[k / (step as int)]
            } else {
                0
            } by {
                if step > 0 {
                    vstd::arithmetic::div_mod::lemma_fundamental_div_mod(k, step as int);
                    if k == slot {
                        vstd::arithmetic::div_mod::lemma_div_multiples_vanish(index as int, step as int);
                        vstd::arithmetic::div_mod::lemma_mod_multiples_basic(index as int, step as int);
                        assert(index * step == step * index) by (nonlinear_arith);
                    } else {
                        assert(coefficients@[k] == before[k]);
                        if k % (step as int) == 0 && k / (step as int) == index {
                            assert(k == step * index);
                            assert(step * index == index * step) by (nonlinear_arith);
                        }
                    }
                } else {
                    if k != slot {
                        assert(coefficients@[k] == before[k]);
                    }
                }
            }
        }
        index = index + 1;
    }
    proof {
        if step == 0 {
            assert(int_values(coefficients@) =~= target);
        } else {
            assert(int_values(coefficients@) =~= target) by {
                assert forall|k: int| 0 <= k < count implies #[trigger] int_values(coefficients@)[k]
                    == target[k] by {
                    if k % (step as int) == 0 {
                        vstd::arithmetic::div_mod::lemma_fundamental_div_mod(k, step as int);
                        assert(k / (step as int) <= input_degree) by (nonlinear_arith)
                            requires
                                k == step * (k / (step as int)),
                                k < input_degree * step + 1,
                                step > 0,
                        ;
                    }
                }
            }
        }
    }
    Ok(Polynomial::from_coefficients(coefficients))
}

/// The coefficients of a monomial.
proof fn lemma_coef_monomial(power: nat, c: int, i: int)
    requires
        i >= 0,
    ensures
        coef(monomial(power, c), i) == if i == power {
            c
        } else {
            0
        },
{
}

/// `p(±x ± y)` by powers of `y`: coefficient `j` of `y` is the polynomial in `x` whose
/// coefficient `i` is `signed_term(p, negative_x, negative_y, i, j)`.
pub fn substitute_signed_x_signed_y(polynomial: &Polynomial, negative_x: bool, negative_y: bool) -> (r:
    Result<Vec<Polynomial>, AlgnumError>)
    ensures
        match r {
            Ok(v) => v@.len() == polynomial@.len() && forall|j: int, i: int|
                0 <= j < v@.len() && 0 <= i ==> #[trigger] coef(v@[j]@, i) == if i + j
                    < polynomial@.len() {
                    signed_term(polynomial@, negative_x, negative_y, i, j)
                } else {
                    0
                },
            Err(e) => resource_failure(e),
        },
{
    let ghost p = polynomial@;
    let source = polynomial.coefficients();
    let count = source.len();
    let mut result: Vec<Polynomial> = Vec::new();
    reserve_elements(&mut result, count, AllocationResource::ResultantCoefficients)?;
    let mut fill: usize = 0;
    while fill < count
        invariant
            count == source@.len(),
            fill <= count,
            result@.len() == fill,
            forall|j: int| 0 <= j < fill ==> #[trigger] result@[j]@ == Seq::<int>::empty(),
        decreases count - fill,
    {
        result.push(Polynomial::zero());
        fill = fill + 1;
    }
    let mut power: usize = 0;
    while power < count
        invariant
            p == polynomial@,
            int_values(source@) == p,
            count == source@.len(),
            power <= count,
            result@.len() == count,
            forall|j: int, i: int|
                0 <= j < count && 0 <= i ==> #[trigger] coef(result@[j]@, i) == if i + j < power {
                    signed_term(p, negative_x, negative_y, i, j)
                } else {
                    0
                },
        decreases count - power,
    {
        let coefficient = &source[power];
        let ghost c = coefficient@;
        proof {
            assert(c == p[power as int]);
        }
        let mut binomial_value = match BigUint::one() {
            Ok(v) => v,
            Err(error) => return Err(AlgnumError::Bigint(error)),
        };
        let mut y_power: usize = 0;
        while y_power <= power
            invariant
                p == polynomial@,
                c == p[power as int],
                coefficient@ == c,
                int_values(source@) == p,
                count == source@.len(),
                power < count,
                y_power <= power + 1,
                y_power <= power ==> binomial_value@ == binomial(power as nat, y_power as nat),
                result@.len() == count,
                forall|j: int, i: int|
                    0 <= j < count && 0 <= i ==> #[trigger] coef(result@[j]@, i) == if i + j < power
                        || (i + j == power && j < y_power) {
                        signed_term(p, negative_x, negative_y, i, j)
                    } else {
                        0
                    },
            decreases power + 1 - y_power,
        {
            let x_power = power - y_power;
            let negate = (negative_y && y_power % 2 != 0) != (negative_x && x_power % 2 != 0);
            let sign = if negate {
                opposite_sign(coefficient.sign())
            } else {
                coefficient.sign()
            };
            let magnitude = match coefficient.magnitude().mul(&binomial_value) {
                Ok(v) => v,
                Err(error) => return Err(AlgnumError::Bigint(error)),
            };
            let scalar = BigInt::from_sign_magnitude(sign, magnitude);
            let ghost value = signed_term(p, negative_x, negative_y, x_power as int, y_power as int);
            proof {
                let b = binomial(power as nat, y_power as nat) as int;
                assert(x_power + y_power == power);
                if c < 0 {
                    assert(-((-c) * b) == c * b) by (nonlinear_arith);
                } else if c == 0 {
                    assert(crate::integer::abs(c) * b == 0);
                    assert(c * b == 0);
                }
                assert(scalar@ == value);
            }
            let term = monomial_polynomial(x_power, scalar)?;
            let updated = match result[y_power].add(&term) {
                Ok(v) => v,
                Err(error) => return Err(error),
            };
            let ghost before = result@;
            result.set(y_power, updated);
            proof {
                assert forall|j: int, i: int|
                    0 <= j < count && 0 <= i implies #[trigger] coef(result@[j]@, i) == if i + j
                    < power || (i + j == power && j < y_power + 1) {
                    signed_term(p, negative_x, negative_y, i, j)
                } else {
                    0
                } by {
                    if j == y_power {
                        lemma_coef_add_sub(before[j]@, term@, false, i);
                        lemma_coef_monomial(x_power as nat, value, i);
                    } else {
                        assert(result@[j] == before[j]);
                    }
                }
            }
            if y_power < power {
                let factor = match BigUint::try_from(power - y_power) {
                    Ok(v) => v,
                    Err(error) => return Err(AlgnumError::Bigint(error)),
                };
                let scaled = match binomial_value.mul(&factor) {
                    Ok(v) => v,
                    Err(error) => return Err(AlgnumError::Bigint(error)),
                };
                let divisor = match BigUint::try_from(y_power + 1) {
                    Ok(v) => v,
                    Err(error) => return Err(AlgnumError::Bigint(error)),
                };
                proof {
                    lemma_binomial_step(power as nat, y_power as nat);
                    let next = binomial(power as nat, (y_power + 1) as nat);
                    let current = binomial(power as nat, y_power as nat);
                    assert(scaled@ == current * (power - y_power));
                    assert(scaled@ == (y_power + 1) * next) by (nonlinear_arith)
                        requires
                            scaled@ == current * (power - y_power),
                            (y_power + 1) * next == (power - y_power) * current,
                    ;
                    vstd::arithmetic::div_mod::lemma_div_multiples_vanish(next as int, (y_power + 1) as int);
                    assert((y_power + 1) * next == next * (y_power + 1)) by (nonlinear_arith);
                    vstd::arithmetic::div_mod::lemma_mod_multiples_basic(next as int, (y_power + 1) as int);
                    assert(scaled@ % divisor@ == 0);
                }
                binomial_value = match scaled.exact_div(&divisor) {
                    Ok(v) => v,
                    Err(error) => return Err(AlgnumError::Bigint(error)),
                };
            }
            y_power = y_power + 1;
        }
        power = power + 1;
    }
    Ok(result)
}

/// `p(x - y)` by powers of `y`.
pub fn substitute_x_minus_y(polynomial: &Polynomial) -> (r: Result<Vec<Polynomial>, AlgnumError>)
    ensures
        match r {
            Ok(v) => v@.len() == polynomial@.len() && forall|j: int, i: int|
                0 <= j < v@.len() && 0 <= i ==> #[trigger] coef(v@[j]@, i) == if i + j
                    < polynomial@.len() {
                    signed_term(polynomial@, false, true, i, j)
                } else {
                    0
                },
            Err(e) => resource_failure(e),
        },
{
    substitute_signed_x_signed_y(polynomial, false, true)
}

/// `p(y - x)` by powers of `y`.
pub fn substitute_y_minus_x(polynomial: &Polynomial) -> (r: Result<Vec<Polynomial>, AlgnumError>)
    ensures
        match r {
            Ok(v) => v@.len() == polynomial@.len() && forall|j: int, i: int|
                0 <= j < v@.len() && 0 <= i ==> #[trigger] coef(v@[j]@, i) == if i + j
                    < polynomial@.len() {
                    signed_term(polynomial@, true, false, i, j)
                } else {
                    0
                },
            Err(e) => resource_failure(e),
        },
{
    substitute_signed_x_signed_y(polynomial, true, false)
}

} // verus!
