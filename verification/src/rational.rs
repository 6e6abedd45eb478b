//! Rationals: raw numerator/denominator pairs and their reduced forms.
use crate::coprime::{coprime, lemma_coprime_comm, lemma_coprime_pow, lemma_divided_by_gcd_coprime, lemma_pow_nat, pow_nat};
use crate::dyadic::{dyadic_normal, Dyadic};
use crate::error::BigintError;
use crate::integer::{abs, lemma_abs_mul, lemma_pow_minus_one, sign_of, signed, BigInt, Sign};
use crate::limbs::{
    column_partial, columns_value, lemma_column_zero_terms, lemma_value_bound, lemma_weight_adds,
    lemma_weight_mono, lemma_weight_pos, lemma_weight_succ, lemma_weight_zero, limb, limb_base,
    seq_value, weight,
};
use crate::natural::{
    column_sum, divides, times, gcd_spec, lemma_column_carry, lemma_columns_are_product, min_len, ordering_of,
    BigUint, MAX_LIMBS,
};
use crate::integer::{ordering_of_int, sign_rank};
use core::cmp::Ordering;
use vstd::arithmetic::power::{lemma_pow_distributes, lemma_pow_positive, pow};
use vstd::arithmetic::power2::{lemma_pow2_pos, pow2};
use vstd::prelude::*;

verus! {

/// The reduced form of `n / d` (for `d > 0`): both divided by `gcd(|n|, d)`, with
/// the sign kept on the numerator.
pub open spec fn reduced_form(n: int, d: nat) -> (int, nat) {
    let g = gcd_spec(abs(n), d);
    (signed(sign_of(n), abs(n) / g), d / g)
}

/// A numerator/denominator pair in lowest terms with a positive denominator.
pub open spec fn is_reduced(v: (int, nat)) -> bool {
    v.1 > 0 && coprime(abs(v.0), v.1)
}

/// A numerator and a denominator as given, not reduced and not checked.
#[derive(Debug, Eq, PartialEq)]
pub struct RawRational {
    numerator: BigInt,
    denominator: BigUint,
}

impl View for RawRational {
    type V = (int, nat);

    closed spec fn view(&self) -> (int, nat) {
        (self.numerator@, self.denominator@)
    }
}

/// A reduction of a raw rational: the input, the gcd it was divided by, and the result.
#[derive(Debug, Eq, PartialEq)]
pub struct RationalReduction {
    input: RawRational,
    gcd: BigUint,
    reduced: ReducedRational,
}

impl View for RationalReduction {
    type V = ((int, nat), nat, (int, nat));

    closed spec fn view(&self) -> ((int, nat), nat, (int, nat)) {
        (self.input@, self.gcd@, self.reduced@)
    }
}

/// A rational in lowest terms with a positive denominator; zero is `0 / 1`.
#[derive(Debug, Eq, PartialEq)]
pub struct ReducedRational {
    numerator: BigInt,
    denominator: BigUint,
}

impl View for ReducedRational {
    type V = (int, nat);

    closed spec fn view(&self) -> (int, nat) {
        (self.numerator@, self.denominator@)
    }
}

impl RawRational {
    /// The pair as given.
    pub fn new(numerator: BigInt, denominator: BigUint) -> (r: Self)
        ensures
            r@ == (numerator@, denominator@),
    {
        RawRational { numerator, denominator }
    }

    /// The numerator.
    pub fn numerator(&self) -> (r: &BigInt)
        ensures
            r@ == self@.0,
    {
        &self.numerator
    }

    /// The denominator.
    pub fn denominator(&self) -> (r: &BigUint)
        ensures
            r@ == self@.1,
    {
        &self.denominator
    }

    /// An independent copy.
    pub fn try_clone(&self) -> (r: Result<Self, BigintError>)
        ensures
            match r {
                Ok(v) => v@ == self@,
                Err(e) => e is AllocationFailure,
            },
    {
        proof {
            use_type_invariant(&self.numerator);
            use_type_invariant(&self.denominator);
            self.denominator.lemma_shape();
            self.numerator.lemma_magnitude();
        }
        let numerator = self.numerator.try_clone()?;
        let denominator = self.denominator.try_clone()?;
        Ok(RawRational { numerator, denominator })
    }

    /// Divides numerator and denominator by their gcd; a zero denominator is refused.
    pub fn reduce(&self) -> (r: Result<RationalReduction, BigintError>)
        ensures
            self@.1 == 0 ==> r == Err::<RationalReduction, BigintError>(
                BigintError::ZeroDenominator,
            ),
            self@.1 != 0 ==> match r {
                Ok(v) => v@.0 == self@ && v@.1 == gcd_spec(abs(self@.0), self@.1) && v@.2
                    == reduced_form(self@.0, self@.1),
                Err(e) => e is AllocationFailure,
            },
    {
        if self.denominator.is_zero() {
            return Err(BigintError::ZeroDenominator);
        }
        let magnitude = self.numerator.magnitude();
        let gcd = magnitude.gcd(&self.denominator)?;
        let ghost n = self.numerator@;
        let ghost d = self.denominator@;
        proof {
            lemma_divided_by_gcd_coprime(abs(n), d);
        }
        let reduced = if self.numerator.is_zero() {
            let one = BigUint::one()?;
            proof {
                assert(gcd_spec(0, d) == gcd_spec(d, 0nat % d));
                assert(d / d == 1) by (nonlinear_arith)
                    requires
                        d > 0,
                ;
                lemma_coprime_one_zero();
            }
            ReducedRational { numerator: BigInt::zero(), denominator: one }
        } else {
            let reduced_magnitude = magnitude.exact_div(&gcd)?;
            let denominator = self.denominator.exact_div(&gcd)?;
            proof {
                let g = gcd@;
                assert(reduced_magnitude@ > 0 && denominator@ > 0) by (nonlinear_arith)
                    requires
                        reduced_magnitude@ * g == abs(n),
                        denominator@ * g == d,
                        abs(n) > 0,
                        d > 0,
                ;
            }
            let numerator = BigInt::from_sign_magnitude(self.numerator.sign(), reduced_magnitude);
            ReducedRational { numerator, denominator }
        };
        let input = self.try_clone()?;
        Ok(RationalReduction { input, gcd, reduced })
    }
}

/// Zero over one is in lowest terms.
proof fn lemma_coprime_one_zero()
    ensures
        coprime(0, 1),
{
    assert(gcd_spec(0, 1) == gcd_spec(1, 0nat % 1));
}

impl RationalReduction {
    /// The raw input.
    pub fn input(&self) -> (r: &RawRational)
        ensures
            r@ == self@.0,
    {
        &self.input
    }

    /// The gcd that numerator and denominator were divided by.
    pub fn gcd(&self) -> (r: &BigUint)
        ensures
            r@ == self@.1,
    {
        &self.gcd
    }

    /// The reduced rational.
    pub fn reduced(&self) -> (r: &ReducedRational)
        ensures
            r@ == self@.2,
    {
        &self.reduced
    }

    /// The reduced rational, consuming the reduction.
    pub fn into_reduced(self) -> (r: ReducedRational)
        ensures
            r@ == self@.2,
    {
        self.reduced
    }

    /// An independent copy.
    pub fn try_clone(&self) -> (r: Result<Self, BigintError>)
        ensures
            match r {
                Ok(v) => v@ == self@,
                Err(e) => e is AllocationFailure,
            },
    {
        proof {
            use_type_invariant(&self.gcd);
            self.gcd.lemma_shape();
        }
        let input = self.input.try_clone()?;
        let gcd = self.gcd.try_clone()?;
        let reduced = self.reduced.try_clone()?;
        Ok(RationalReduction { input, gcd, reduced })
    }
}

impl ReducedRational {
    /// Lowest terms and a positive denominator: holds of every value of this type.
    #[verifier::type_invariant]
    pub open spec fn well_formed(self) -> bool {
        is_reduced(self@)
    }

    /// The integer `value` as `value / 1`.
    pub fn from_bigint(value: BigInt) -> (r: Result<Self, BigintError>)
        ensures
            match r {
                Ok(v) => v@ == (value@, 1nat),
                Err(e) => e is AllocationFailure,
            },
    {
        let denominator = BigUint::one()?;
        proof {
            crate::coprime::lemma_coprime_one(abs(value@));
        }
        Ok(ReducedRational { numerator: value, denominator })
    }

    /// The numerator.
    pub fn numerator(&self) -> (r: &BigInt)
        ensures
            r@ == self@.0,
    {
        &self.numerator
    }

    /// The denominator.
    pub fn denominator(&self) -> (r: &BigUint)
        ensures
            r@ == self@.1,
    {
        &self.denominator
    }

    /// Whether the value is zero.
    pub fn is_zero(&self) -> (r: bool)
        ensures
            r == (self@.0 == 0),
    {
        self.numerator.is_zero()
    }

    /// An independent copy.
    pub fn try_clone(&self) -> (r: Result<Self, BigintError>)
        ensures
            match r {
                Ok(v) => v@ == self@,
                Err(e) => e is AllocationFailure,
            },
    {
        proof {
            use_type_invariant(self);
            use_type_invariant(&self.numerator);
            use_type_invariant(&self.denominator);
            self.denominator.lemma_shape();
            self.numerator.lemma_magnitude();
        }
        let numerator = self.numerator.try_clone()?;
        let denominator = self.denominator.try_clone()?;
        Ok(ReducedRational { numerator, denominator })
    }
}

/// `n / d` in lowest terms.
fn reduce_parts(numerator: BigInt, denominator: BigUint) -> (r: Result<ReducedRational, BigintError>)
    requires
        denominator@ > 0,
    ensures
        match r {
            Ok(v) => v@ == reduced_form(numerator@, denominator@),
            Err(e) => e is AllocationFailure,
        },
{
    let raw = RawRational::new(numerator, denominator);
    let reduction = raw.reduce()?;
    Ok(reduction.into_reduced())
}

/// The integer `value * factor`.
fn mul_int_uint(value: &BigInt, factor: &BigUint) -> (r: Result<BigInt, BigintError>)
    ensures
        match r {
            Ok(v) => v@ == value@ * factor@,
            Err(e) => e is AllocationFailure || e is CapacityOverflow,
        },
{
    let magnitude = value.magnitude().mul(factor)?;
    proof {
        lemma_abs_mul(value@, factor@ as int);
        if value@ < 0 {
            assert(value@ * factor@ == -(abs(value@) * factor@)) by (nonlinear_arith)
                requires
                    value@ < 0,
                    abs(value@) == -value@,
            ;
        }
        assert(abs(value@) * factor@ == 0 <==> value@ == 0 || factor@ == 0) by (nonlinear_arith);
    }
    Ok(BigInt::from_sign_magnitude(value.sign(), magnitude))
}

/// The sign of a product of two signs.
fn multiply_sign(left: Sign, right: Sign) -> (r: Sign)
    ensures
        r == sign_of(signed(left, 1) * signed(right, 1)),
{
    match (left, right) {
        (Sign::Zero, _) | (_, Sign::Zero) => Sign::Zero,
        (Sign::Positive, Sign::Positive) | (Sign::Negative, Sign::Negative) => Sign::Positive,
        _ => Sign::Negative,
    }
}

impl ReducedRational {
    /// The sum, in lowest terms.
    pub fn add(&self, rhs: &Self) -> (r: Result<Self, BigintError>)
        ensures
            match r {
                Ok(v) => v@ == reduced_form(
                    self@.0 * rhs@.1 + rhs@.0 * self@.1,
                    self@.1 * rhs@.1,
                ),
                Err(e) => e is AllocationFailure || e is CapacityOverflow,
            },
    {
        proof {
            use_type_invariant(self);
            use_type_invariant(rhs);
        }
        let left = mul_int_uint(&self.numerator, &rhs.denominator)?;
        let right = mul_int_uint(&rhs.numerator, &self.denominator)?;
        let numerator = left.add(&right)?;
        let denominator = self.denominator.mul(&rhs.denominator)?;
        proof {
            assert(denominator@ > 0) by (nonlinear_arith)
                requires
                    denominator@ == self@.1 * rhs@.1,
                    self@.1 > 0,
                    rhs@.1 > 0,
            ;
        }
        reduce_parts(numerator, denominator)
    }

    /// The difference, in lowest terms.
    pub fn sub(&self, rhs: &Self) -> (r: Result<Self, BigintError>)
        ensures
            match r {
                Ok(v) => v@ == reduced_form(
                    self@.0 * rhs@.1 - rhs@.0 * self@.1,
                    self@.1 * rhs@.1,
                ),
                Err(e) => e is AllocationFailure || e is CapacityOverflow,
            },
    {
        proof {
            use_type_invariant(self);
            use_type_invariant(rhs);
        }
        let left = mul_int_uint(&self.numerator, &rhs.denominator)?;
        let right = mul_int_uint(&rhs.numerator, &self.denominator)?;
        let numerator = left.sub(&right)?;
        let denominator = self.denominator.mul(&rhs.denominator)?;
        proof {
            assert(denominator@ > 0) by (nonlinear_arith)
                requires
                    denominator@ == self@.1 * rhs@.1,
                    self@.1 > 0,
                    rhs@.1 > 0,
            ;
        }
        reduce_parts(numerator, denominator)
    }

    /// The product, in lowest terms.
    pub fn mul(&self, rhs: &Self) -> (r: Result<Self, BigintError>)
        ensures
            match r {
                Ok(v) => v@ == reduced_form(self@.0 * rhs@.0, self@.1 * rhs@.1),
                Err(e) => e is AllocationFailure || e is CapacityOverflow,
            },
    {
        proof {
            use_type_invariant(self);
            use_type_invariant(rhs);
        }
        let numerator = self.numerator.mul(&rhs.numerator)?;
        let denominator = self.denominator.mul(&rhs.denominator)?;
        proof {
            assert(denominator@ > 0) by (nonlinear_arith)
                requires
                    denominator@ == self@.1 * rhs@.1,
                    self@.1 > 0,
                    rhs@.1 > 0,
            ;
        }
        reduce_parts(numerator, denominator)
    }

    /// The quotient, in lowest terms; division by zero is refused.
    pub fn div(&self, rhs: &Self) -> (r: Result<Self, BigintError>)
        ensures
            rhs@.0 == 0 ==> r == Err::<ReducedRational, BigintError>(BigintError::DivisionByZero),
            rhs@.0 != 0 ==> match r {
                Ok(v) => v@ == reduced_form(
                    if rhs@.0 < 0 {
                        -(self@.0 * rhs@.1)
                    } else {
                        self@.0 * rhs@.1
                    },
                    self@.1 * abs(rhs@.0),
                ),
                Err(e) => e is AllocationFailure || e is CapacityOverflow,
            },
    {
        proof {
            use_type_invariant(self);
            use_type_invariant(rhs);
        }
        if rhs.is_zero() {
            return Err(BigintError::DivisionByZero);
        }
        let magnitude = self.numerator.magnitude().mul(&rhs.denominator)?;
        let sign = multiply_sign(self.numerator.sign(), rhs.numerator.sign());
        let numerator = BigInt::from_sign_magnitude(sign, magnitude);
        let denominator = self.denominator.mul(rhs.numerator.magnitude())?;
        proof {
            let n1 = self@.0;
            let d2 = rhs@.1 as int;
            lemma_abs_mul(n1, d2);
            assert(abs(n1) * rhs@.1 == 0 <==> n1 == 0) by (nonlinear_arith)
                requires
                    rhs@.1 > 0,
            ;
            if n1 < 0 {
                assert(n1 * d2 == -(abs(n1) * d2)) by (nonlinear_arith)
                    requires
                        n1 < 0,
                        abs(n1) == -n1,
                ;
            } else {
                assert(n1 * d2 == abs(n1) * d2);
            }
            assert(denominator@ > 0) by (nonlinear_arith)
                requires
                    denominator@ == self@.1 * abs(rhs@.0),
                    self@.1 > 0,
                    abs(rhs@.0) > 0,
            ;
        }
        reduce_parts(numerator, denominator)
    }
}

/// `|x^e| == |x|^e`.
pub proof fn lemma_abs_pow(x: int, e: nat)
    ensures
        abs(pow(x, e)) == pow_nat(abs(x), e),
        x < 0 && e % 2 == 1 ==> pow(x, e) == -pow_nat(abs(x), e),
        !(x < 0 && e % 2 == 1) ==> pow(x, e) == pow_nat(abs(x), e),
{
    lemma_pow_nat(abs(x), e);
    if x < 0 {
        let a = abs(x) as int;
        lemma_pow_distributes(-1, a, e);
        lemma_pow_minus_one(e);
        assert(-1 * a == x);
        let p = pow(a, e);
        let m = pow(-1, e);
        assert(m * p == if e % 2 == 0 { p } else { -p }) by (nonlinear_arith)
            requires
                m == if e % 2 == 0 { 1int } else { -1int },
        ;
    }
}

/// The signed value of a sign and a positive magnitude.
pub open spec fn signed_power(negative: bool, magnitude: nat) -> int {
    if negative {
        -magnitude
    } else {
        magnitude as int
    }
}

impl ReducedRational {
    /// The value raised to `exponent`; a negative power of zero is refused.
    pub fn pow_i32(&self, exponent: i32) -> (r: Result<Self, BigintError>)
        ensures
            exponent == 0 ==> match r {
                Ok(v) => v@ == (1int, 1nat),
                Err(e) => e is AllocationFailure,
            },
            exponent > 0 ==> match r {
                Ok(v) => v@ == (pow(self@.0, exponent as nat), pow_nat(self@.1, exponent as nat)),
                Err(e) => e is AllocationFailure || e is CapacityOverflow,
            },
            exponent < 0 && self@.0 == 0 ==> match r {
                Ok(_) => false,
                Err(e) => e is DivisionByZero,
            },
            exponent < 0 && self@.0 != 0 ==> match r {
                Ok(v) => v@ == (
                    signed_power(
                        self@.0 < 0 && (-exponent) % 2 == 1,
                        pow_nat(self@.1, (-exponent) as nat),
                    ),
                    pow_nat(abs(self@.0), (-exponent) as nat),
                ),
                Err(e) => e is AllocationFailure || e is CapacityOverflow,
            },
    {
        proof {
            use_type_invariant(self);
        }
        if exponent == 0 {
            let one = BigInt::one()?;
            return Self::from_bigint(one);
        }
        let power: u32 = if exponent < 0 {
            (-(exponent as i64)) as u32
        } else {
            exponent as u32
        };
        let ghost p = power as nat;
        proof {
            lemma_abs_pow(self@.0, p);
            lemma_pow_nat(self@.1, p);
            lemma_coprime_pow(abs(self@.0), self@.1, p);
            lemma_pow_positive(self@.1 as int, p);
        }
        if exponent > 0 {
            let numerator = self.numerator.pow_u32(power)?;
            let denominator = self.denominator.pow_u32(power)?;
            return Ok(ReducedRational { numerator, denominator });
        }
        if self.is_zero() {
            return Err(BigintError::DivisionByZero);
        }
        let odd = power % 2 == 1;
        let numerator_sign = if self.numerator.sign() == Sign::Negative && odd {
            Sign::Negative
        } else {
            Sign::Positive
        };
        let numerator_magnitude = self.denominator.pow_u32(power)?;
        let denominator = self.numerator.magnitude().pow_u32(power)?;
        proof {
            lemma_pow_nat(abs(self@.0), p);
            lemma_pow_positive(abs(self@.0) as int, p);
            lemma_coprime_comm(pow_nat(abs(self@.0), p), pow_nat(self@.1, p));
        }
        let numerator = BigInt::from_sign_magnitude(numerator_sign, numerator_magnitude);
        Ok(ReducedRational { numerator, denominator })
    }

    /// The Euclidean quotient and remainder of numerator by denominator.
    fn euclidean_parts(&self) -> (r: Result<(BigInt, BigUint), BigintError>)
        ensures
            match r {
                Ok((q, m)) => q@ == self@.0 / (self@.1 as int) && m@ == self@.0 % (self@.1 as int),
                Err(e) => e is AllocationFailure,
            },
    {
        proof {
            use_type_invariant(self);
            use_type_invariant(&self.denominator);
            self.denominator.lemma_shape();
        }
        let denominator = self.denominator.try_clone()?;
        let divisor = BigInt::from_sign_magnitude(Sign::Positive, denominator);
        self.numerator.div_rem_euclid(&divisor)
    }

    /// The greatest integer not above the value.
    pub fn floor(&self) -> (r: Result<BigInt, BigintError>)
        ensures
            match r {
                Ok(v) => v@ == self@.0 / (self@.1 as int),
                Err(e) => e is AllocationFailure,
            },
    {
        let (quotient, _) = self.euclidean_parts()?;
        Ok(quotient)
    }

    /// The least integer not below the value.
    pub fn ceil(&self) -> (r: Result<BigInt, BigintError>)
        ensures
            match r {
                Ok(v) => v@ == if self@.0 % (self@.1 as int) == 0 {
                    self@.0 / (self@.1 as int)
                } else {
                    self@.0 / (self@.1 as int) + 1
                },
                Err(e) => e is AllocationFailure || e is CapacityOverflow,
            },
    {
        let (quotient, remainder) = self.euclidean_parts()?;
        if remainder.is_zero() {
            Ok(quotient)
        } else {
            let one = BigInt::one()?;
            quotient.add(&one)
        }
    }
}

impl ReducedRational {
    /// The Euclidean quotient and remainder of `numerator * 2^bits` by the denominator.
    fn scaled_euclidean_parts(&self, bits: u32) -> (r: Result<(BigInt, BigUint), BigintError>)
        ensures
            match r {
                Ok((q, m)) => q@ == (self@.0 * pow2(bits as nat)) / (self@.1 as int) && m@ == (self@.0
                    * pow2(bits as nat)) % (self@.1 as int),
                Err(e) => e is AllocationFailure || e is CapacityOverflow,
            },
    {
        proof {
            use_type_invariant(self);
            use_type_invariant(&self.denominator);
            self.denominator.lemma_shape();
        }
        let shift = bits as usize;
        let magnitude = self.numerator.magnitude().shl_bits(shift)?;
        proof {
            let n = self@.0;
            let p = pow2(bits as nat);
            lemma_pow2_pos(bits as nat);
            assert(abs(n) * p == 0 <==> n == 0) by (nonlinear_arith)
                requires
                    p > 0,
            ;
            if n < 0 {
                assert(n * p == -(abs(n) * p)) by (nonlinear_arith)
                    requires
                        abs(n) == -n,
                ;
            } else {
                assert(n * p == abs(n) * p);
            }
        }
        let scaled = BigInt::from_sign_magnitude(self.numerator.sign(), magnitude);
        let denominator = self.denominator.try_clone()?;
        let divisor = BigInt::from_sign_magnitude(Sign::Positive, denominator);
        scaled.div_rem_euclid(&divisor)
    }

    /// The greatest dyadic with exponent `bits` not above the value, in normal form.
    pub fn dyadic_floor(&self, bits: u32) -> (r: Result<Dyadic, BigintError>)
        ensures
            match r {
                Ok(v) => v@ == dyadic_normal(
                    (self@.0 * pow2(bits as nat)) / (self@.1 as int),
                    bits as nat,
                ),
                Err(e) => e is AllocationFailure || e is CapacityOverflow,
            },
    {
        let (quotient, _) = self.scaled_euclidean_parts(bits)?;
        Ok(Dyadic::new(quotient, bits))
    }

    /// The least dyadic with exponent `bits` not below the value, in normal form.
    pub fn dyadic_ceil(&self, bits: u32) -> (r: Result<Dyadic, BigintError>)
        ensures
            match r {
                Ok(v) => {
                    let scaled = self@.0 * pow2(bits as nat);
                    let d = self@.1 as int;
                    v@ == dyadic_normal(
                        if scaled % d == 0 {
                            scaled / d
                        } else {
                            scaled / d + 1
                        },
                        bits as nat,
                    )
                },
                Err(e) => e is AllocationFailure || e is CapacityOverflow,
            },
    {
        let (quotient, remainder) = self.scaled_euclidean_parts(bits)?;
        let integer = if remainder.is_zero() {
            quotient
        } else {
            let one = BigInt::one()?;
            quotient.add(&one)?
        };
        Ok(Dyadic::new(integer, bits))
    }
}

/// The columns past the last one add nothing.
proof fn lemma_columns_beyond(a: Seq<u32>, b: Seq<u32>, n: nat)
    requires
        a.len() > 0,
        b.len() > 0,
        n >= a.len() + b.len() - 1,
    ensures
        columns_value(a, b, n, a.len()) == columns_value(
            a,
            b,
            (a.len() + b.len() - 1) as nat,
            a.len(),
        ),
    decreases n,
{
    let top = (a.len() + b.len() - 1) as nat;
    if n > top {
        let d = (n - 1) as nat;
        lemma_columns_beyond(a, b, d);
        assert forall|k: int| 0 <= k < a.len() implies limb(a, k) * limb(b, d - k) == 0 by {
            assert(limb(b, d - k) == 0);
        }
        lemma_column_zero_terms(a, b, d, 0, a.len());
        assert(column_partial(a, b, d, 0) == 0);
        assert(column_partial(a, b, d, a.len()) * weight(d) == 0) by (nonlinear_arith)
            requires
                column_partial(a, b, d, a.len()) == 0,
        ;
    }
}

/// The columns from `k` on add a multiple of `weight(k)`.
proof fn lemma_columns_tail(a: Seq<u32>, b: Seq<u32>, k: nat, n: nat, m: nat) -> (t: nat)
    requires
        k <= n,
    ensures
        columns_value(a, b, n, m) == columns_value(a, b, k, m) + weight(k) * t,
    decreases n,
{
    if n == k {
        0
    } else {
        let n1 = (n - 1) as nat;
        let t1 = lemma_columns_tail(a, b, k, n1, m);
        let c = column_partial(a, b, n1, m);
        lemma_weight_adds(k, (n1 - k) as nat);
        let w = weight((n1 - k) as nat);
        assert(weight(k) * t1 + c * (weight(k) * w) == weight(k) * (t1 + c * w))
            by (nonlinear_arith);
        t1 + c * w
    }
}

/// Digit `i` of `v` in base `2^32`.
pub open spec fn digit(v: nat, i: nat) -> nat {
    (v / weight(i)) % limb_base()
}

/// `v / weight(i)` splits into the higher part and digit `i`.
proof fn lemma_digit_step(v: nat, i: nat)
    ensures
        v / weight(i) == (v / weight(i + 1)) * limb_base() + digit(v, i),
{
    lemma_weight_pos(i);
    lemma_weight_succ(i);
    vstd::arithmetic::div_mod::lemma_div_denominator(v as int, weight(i) as int, limb_base() as int);
    vstd::arithmetic::div_mod::lemma_fundamental_div_mod((v / weight(i)) as int, limb_base() as int);
}

/// Limb `target` of `left * right`, computed column by column without storing the product.
fn product_limb(left: &BigUint, right: &BigUint, target: usize) -> (r: u32)
    ensures
        r == digit(left@ * right@, target as nat),
{
    proof {
        use_type_invariant(left);
        use_type_invariant(right);
        left.lemma_shape();
        right.lemma_shape();
        lemma_weight_pos(target as nat);
    }
    let left_limbs = left.limbs_le();
    let right_limbs = right.limbs_le();
    let ghost a = left_limbs@;
    let ghost b = right_limbs@;
    if left_limbs.len() == 0 || right_limbs.len() == 0 {
        proof {
            assert(left@ * right@ == 0) by (nonlinear_arith)
                requires
                    left@ == 0 || right@ == 0,
            ;
            vstd::arithmetic::div_mod::lemma_basic_div(0, weight(target as nat) as int);
        }
        return 0;
    }
    let columns = left_limbs.len() + right_limbs.len() - 1;
    let ghost m = min_len(a.len(), b.len());
    let mut carry: u128 = 0;
    let mut index: usize = 0;
    let ghost mut low: nat = 0;
    proof {
        lemma_weight_zero();
    }
    loop
        invariant
            a == left_limbs@,
            b == right_limbs@,
            a == left.limbs_view(),
            b == right.limbs_view(),
            a.len() > 0,
            b.len() > 0,
            a.len() <= MAX_LIMBS,
            b.len() <= MAX_LIMBS,
            columns == a.len() + b.len() - 1,
            m == min_len(a.len(), b.len()),
            index <= target,
            carry < m * limb_base(),
            low < weight(index as nat),
            columns_value(a, b, index as nat, a.len()) == carry * weight(index as nat) + low,
            seq_value(a) == left@,
            seq_value(b) == right@,
        decreases target - index,
    {
        let ghost c = column_partial(a, b, index as nat, a.len());
        let total: u128 = if index < columns {
            match column_sum(left_limbs, right_limbs, index, carry) {
                Some(sum) => sum,
                None => carry,
            }
        } else {
            proof {
                assert forall|k: int| 0 <= k < a.len() implies limb(a, k) * limb(b, index - k)
                    == 0 by {
                    assert(limb(b, index - k) == 0);
                }
                lemma_column_zero_terms(a, b, index as nat, 0, a.len());
                assert(c == 0);
                assert(m > 0);
                assert(c <= m * 0xFFFF_FFFE_0000_0001) by (nonlinear_arith)
                    requires
                        c == 0,
                        m > 0,
                ;
            }
            carry
        };
        let digit_value = #[verifier::truncate] (total as u32);
        let next = total >> 32;
        let ghost w = weight(index as nat);
        proof {
            assert(total == carry + c);
            assert(digit_value as nat + next * 0x1_0000_0000 == total) by (bit_vector)
                requires
                    next == total >> 32,
                    digit_value == total as u32,
            ;
            lemma_weight_succ(index as nat);
            lemma_column_carry(
                columns_value(a, b, index as nat, a.len()),
                carry as nat,
                low,
                c,
                w,
                m,
                total as nat,
                digit_value as nat,
                next as nat,
            );
        }
        proof {
            let cv = columns_value(a, b, index as nat, a.len());
            let cv_next = columns_value(a, b, (index + 1) as nat, a.len());
            assert(cv_next == cv + c * w);
            assert(cv_next == (total as nat) * w + low) by (nonlinear_arith)
                requires
                    cv_next == cv + c * w,
                    cv + c * w == (next as nat) * (w * limb_base()) + (low + (digit_value as nat) * w),
                    total == digit_value + next * limb_base(),
            ;
        }
        if index == target {
            proof {
                lemma_digit_result(a, b, index as nat, total as nat, low, digit_value as nat, next as nat);
            }
            return digit_value;
        }
        proof {
            low = low + (digit_value as nat) * w;
        }
        carry = next;
        index = index + 1;
    }
}

/// The digit of the product at the column where the carry chain stands.
proof fn lemma_digit_result(
    a: Seq<u32>,
    b: Seq<u32>,
    t: nat,
    total: nat,
    low: nat,
    digit_value: nat,
    next: nat,
)
    requires
        a.len() > 0,
        b.len() > 0,
        columns_value(a, b, t + 1, a.len()) == total * weight(t) + low,
        low < weight(t),
        digit_value + next * limb_base() == total,
        digit_value < limb_base(),
    ensures
        digit_value == digit(seq_value(a) * seq_value(b), t),
{
    let top = (a.len() + b.len() - 1) as nat;
    lemma_columns_are_product(a, b);
    let product = seq_value(a) * seq_value(b);
    let n = if top >= t + 1 { top } else { t + 1 };
    lemma_columns_beyond(a, b, n);
    let tail = lemma_columns_tail(a, b, t + 1, n, a.len());
    lemma_weight_succ(t);
    lemma_weight_pos(t);
    let w = weight(t);
    assert(product == (total + limb_base() * tail) * w + low) by (nonlinear_arith)
        requires
            product == total * w + low + weight(t + 1) * tail,
            weight(t + 1) == w * limb_base(),
    ;
    vstd::arithmetic::div_mod::lemma_fundamental_div_mod_converse(
        product as int,
        w as int,
        (total + limb_base() * tail) as int,
        low as int,
    );
    assert(total + limb_base() * tail == digit_value + (next + tail) * limb_base())
        by (nonlinear_arith)
        requires
            digit_value + next * limb_base() == total,
    ;
    vstd::arithmetic::div_mod::lemma_fundamental_div_mod_converse(
        (total + limb_base() * tail) as int,
        limb_base() as int,
        (next + tail) as int,
        digit_value as int,
    );
}

/// Compares `a * b` with `c * d` limb by limb from the top, without allocating:
/// `-1`, `0` or `1`.
fn products_order(a: &BigUint, b: &BigUint, c: &BigUint, d: &BigUint) -> (r: i8)
    ensures
        r == (if a@ * b@ < c@ * d@ {
            -1i8
        } else if a@ * b@ == c@ * d@ {
            0i8
        } else {
            1i8
        }),
{
    proof {
        use_type_invariant(a);
        use_type_invariant(b);
        use_type_invariant(c);
        use_type_invariant(d);
        a.lemma_shape();
        b.lemma_shape();
        c.lemma_shape();
        d.lemma_shape();
    }
    let left_limbs = a.limbs_le().len() + b.limbs_le().len();
    let right_limbs = c.limbs_le().len() + d.limbs_le().len();
    let top = if left_limbs >= right_limbs {
        left_limbs
    } else {
        right_limbs
    };
    let ghost x = a@ * b@;
    let ghost y = c@ * d@;
    proof {
        lemma_product_below(a.limbs_view(), b.limbs_view(), top as nat);
        lemma_product_below(c.limbs_view(), d.limbs_view(), top as nat);
        lemma_weight_pos(top as nat);
        vstd::arithmetic::div_mod::lemma_basic_div(x as int, weight(top as nat) as int);
        vstd::arithmetic::div_mod::lemma_basic_div(y as int, weight(top as nat) as int);
    }
    let mut index = top;
    while index > 0
        invariant
            index <= top,
            x == a@ * b@,
            y == c@ * d@,
            x / weight(index as nat) == y / weight(index as nat),
        decreases index,
    {
        index = index - 1;
        let left_digit = product_limb(a, b, index);
        let right_digit = product_limb(c, d, index);
        proof {
            lemma_digit_step(x, index as nat);
            lemma_digit_step(y, index as nat);
            lemma_weight_pos(index as nat);
        }
        if left_digit < right_digit {
            proof {
                if x >= y {
                    vstd::arithmetic::div_mod::lemma_div_is_ordered(y as int, x as int, weight(index as nat) as int);
                }
            }
            return -1;
        }
        if left_digit > right_digit {
            proof {
                if y >= x {
                    vstd::arithmetic::div_mod::lemma_div_is_ordered(x as int, y as int, weight(index as nat) as int);
                }
            }
            return 1;
        }
    }
    proof {
        lemma_weight_zero();
        assert(x / 1 == x && y / 1 == y);
    }
    0
}

/// A product of values with `la` and `lb` limbs lies below `weight(n)` for `n >= la + lb`.
proof fn lemma_product_below(a: Seq<u32>, b: Seq<u32>, n: nat)
    requires
        n >= a.len() + b.len(),
    ensures
        seq_value(a) * seq_value(b) < weight(n),
{
    lemma_value_bound(a);
    lemma_value_bound(b);
    lemma_weight_adds(a.len(), b.len());
    lemma_weight_mono(a.len() + b.len(), n);
    lemma_weight_pos(a.len());
    lemma_weight_pos(b.len());
    assert(seq_value(a) * seq_value(b) < weight(a.len()) * weight(b.len())) by (nonlinear_arith)
        requires
            seq_value(a) < weight(a.len()),
            seq_value(b) < weight(b.len()),
    ;
}

/// Compares `a * b` with `c * d` without allocating.
fn compare_products(a: &BigUint, b: &BigUint, c: &BigUint, d: &BigUint) -> (r: Ordering)
    ensures
        r == ordering_of(a@ * b@, c@ * d@),
{
    let order = products_order(a, b, c, d);
    if order < 0 {
        Ordering::Less
    } else if order == 0 {
        Ordering::Equal
    } else {
        Ordering::Greater
    }
}

impl ReducedRational {
    /// Three-way comparison by value, through cross products.
    pub fn cmp(&self, rhs: &Self) -> (r: Ordering)
        ensures
            r == ordering_of_int(self@.0 * rhs@.1, rhs@.0 * self@.1),
    {
        proof {
            use_type_invariant(self);
            use_type_invariant(rhs);
            lemma_cross_sign(self@.0, rhs@.1);
            lemma_cross_sign(rhs@.0, self@.1);
        }
        let left_sign = self.numerator.sign();
        let right_sign = rhs.numerator.sign();
        if left_sign != right_sign {
            if sign_rank(left_sign) < sign_rank(right_sign) {
                Ordering::Less
            } else {
                Ordering::Greater
            }
        } else if left_sign == Sign::Zero {
            Ordering::Equal
        } else if left_sign == Sign::Positive {
            compare_products(
                self.numerator.magnitude(),
                &rhs.denominator,
                rhs.numerator.magnitude(),
                &self.denominator,
            )
        } else {
            compare_products(
                rhs.numerator.magnitude(),
                &self.denominator,
                self.numerator.magnitude(),
                &rhs.denominator,
            )
        }
    }
}

/// A numerator times a positive denominator keeps the numerator's sign.
proof fn lemma_cross_sign(n: int, d: nat)
    requires
        d > 0,
    ensures
        sign_of(n * d) == sign_of(n),
        abs(n * d) == abs(n) * d,
{
    lemma_abs_mul(n, d as int);
    if n < 0 {
        assert(n * d < 0) by (nonlinear_arith)
            requires
                n < 0,
                d > 0,
        ;
    } else if n > 0 {
        assert(n * d > 0) by (nonlinear_arith)
            requires
                n > 0,
                d > 0,
        ;
    }
}

impl PartialOrd for ReducedRational {
    fn partial_cmp(&self, other: &Self) -> (r: Option<Ordering>) {
        Some(self.cmp(other))
    }
}

impl vstd::std_specs::cmp::PartialOrdSpecImpl for ReducedRational {
    open spec fn obeys_partial_cmp_spec() -> bool {
        true
    }

    open spec fn partial_cmp_spec(&self, other: &Self) -> Option<Ordering> {
        Some(ordering_of_int(self@.0 * other@.1, other@.0 * self@.1))
    }
}

/// Reducing keeps the value: `reduced_form(n, d)` is `n / d` in lowest terms, with
/// the sign of `n` and a positive denominator.
pub proof fn lemma_reduced_form(n: int, d: nat)
    requires
        d > 0,
    ensures
        is_reduced(reduced_form(n, d)),
        reduced_form(n, d).0 * d == n * reduced_form(n, d).1,
        reduced_form(n, d).1 > 0,
        sign_of(reduced_form(n, d).0) == sign_of(n),
{
    let g = gcd_spec(abs(n), d);
    lemma_divided_by_gcd_coprime(abs(n), d);
    crate::natural::lemma_gcd_divides(abs(n), d);
    let k1 = abs(n) / g;
    let k2 = d / g;
    vstd::arithmetic::div_mod::lemma_fundamental_div_mod(abs(n) as int, g as int);
    vstd::arithmetic::div_mod::lemma_fundamental_div_mod(d as int, g as int);
    assert(k2 > 0) by (nonlinear_arith)
        requires
            d == g * k2,
            d > 0,
    ;
    assert(k1 * d == abs(n) * k2) by (nonlinear_arith)
        requires
            abs(n) == g * k1,
            d == g * k2,
    ;
    if n < 0 {
        assert(k1 > 0) by (nonlinear_arith)
            requires
                abs(n) == g * k1,
                abs(n) > 0,
        ;
        assert((-k1) * d == n * k2) by (nonlinear_arith)
            requires
                k1 * d == abs(n) * k2,
                abs(n) == -n,
        ;
    } else if n > 0 {
        assert(k1 > 0) by (nonlinear_arith)
            requires
                abs(n) == g * k1,
                abs(n) > 0,
        ;
    } else {
        assert(k1 == 0) by (nonlinear_arith)
            requires
                abs(n) == g * k1,
                abs(n) == 0,
                g > 0,
        ;
    }
}

/// Reduced forms are canonical: two reduced pairs of the same value are equal.
pub proof fn lemma_reduced_unique(v: (int, nat), w: (int, nat))
    requires
        is_reduced(v),
        is_reduced(w),
        v.0 * w.1 == w.0 * v.1,
    ensures
        v == w,
{
    let a = abs(v.0);
    let b = v.1;
    let c = abs(w.0);
    let d = w.1;
    lemma_abs_mul(v.0, d as int);
    lemma_abs_mul(w.0, b as int);
    assert(a * d == c * b);
    lemma_coprime_comm(a, b);
    lemma_coprime_comm(c, d);
    assert(b * a == times(1, b * a));
    assert(divides(b, a * d)) by {
        assert(a * d == times(c, b)) by (nonlinear_arith)
            requires
                a * d == c * b,
        ;
    }
    crate::coprime::lemma_coprime_divides(b, a, d);
    assert(divides(d, c * b)) by {
        assert(c * b == times(a, d)) by (nonlinear_arith)
            requires
                a * d == c * b,
        ;
    }
    crate::coprime::lemma_coprime_divides(d, c, b);
    let k1 = choose|k: nat| d == times(k, b);
    let k2 = choose|k: nat| b == times(k, d);
    assert(b == d) by (nonlinear_arith)
        requires
            d == k1 * b,
            b == k2 * d,
            b > 0,
            d > 0,
    ;
    assert(a == c) by (nonlinear_arith)
        requires
            a * d == c * b,
            b == d,
            d > 0,
    ;
    if v.0 < 0 {
        assert(w.0 < 0) by (nonlinear_arith)
            requires
                v.0 * w.1 == w.0 * v.1,
                v.0 < 0,
                w.1 > 0,
                v.1 > 0,
        ;
    } else if v.0 > 0 {
        assert(w.0 > 0) by (nonlinear_arith)
            requires
                v.0 * w.1 == w.0 * v.1,
                v.0 > 0,
                w.1 > 0,
                v.1 > 0,
        ;
    } else {
        assert(w.0 == 0) by (nonlinear_arith)
            requires
                v.0 * w.1 == w.0 * v.1,
                v.0 == 0,
                v.1 > 0,
        ;
    }
}

} // verus!
