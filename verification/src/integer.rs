//! Arbitrary-precision integers as a sign and a natural magnitude.
use crate::error::BigintError;
use crate::limbs::{lemma_limb_count_mono, limb_count};
use crate::natural::{gcd_spec, produces, BigUint, MAX_LIMBS};
use core::cmp::Ordering;
use vstd::arithmetic::power::{lemma0_pow, lemma_pow0, lemma_pow_distributes, lemma_pow_positive, pow};
use vstd::prelude::*;

verus! {

/// The sign of an integer.
#[derive(Copy, Clone, Debug, Eq, PartialEq, Ord, PartialOrd, Hash, Structural)]
pub enum Sign {
    Negative,
    Zero,
    Positive,
}

/// The absolute value.
pub open spec fn abs(x: int) -> nat {
    if x < 0 {
        (-x) as nat
    } else {
        x as nat
    }
}

/// The sign of an integer value.
pub open spec fn sign_of(x: int) -> Sign {
    if x < 0 {
        Sign::Negative
    } else if x == 0 {
        Sign::Zero
    } else {
        Sign::Positive
    }
}

/// The integer with the given sign and magnitude.
pub open spec fn signed(sign: Sign, magnitude: nat) -> int {
    match sign {
        Sign::Negative => -magnitude,
        Sign::Zero => 0,
        Sign::Positive => magnitude as int,
    }
}

/// What an operation that produces an integer of value `value` returns: as for
/// naturals, with the limb count of its magnitude.
pub open spec fn produces_int(r: Result<BigInt, BigintError>, value: int) -> bool {
    if limb_count(abs(value)) > MAX_LIMBS {
        r == Err::<BigInt, BigintError>(BigintError::CapacityOverflow)
    } else {
        match r {
            Ok(v) => v@ == value,
            Err(e) => e == BigintError::AllocationFailure {
                requested_limbs: limb_count(abs(value)) as usize,
            },
        }
    }
}

/// The value, or a failure to allocate, or a capacity overflow of a value too large.
pub open spec fn int_result(r: Result<BigInt, BigintError>, value: int) -> bool {
    match r {
        Ok(v) => v@ == value,
        Err(e) => e is AllocationFailure || (e == BigintError::CapacityOverflow && limb_count(
            abs(value),
        ) > MAX_LIMBS),
    }
}

/// The three-way comparison of two integers.
pub open spec fn ordering_of_int(a: int, b: int) -> Ordering {
    if a < b {
        Ordering::Less
    } else if a == b {
        Ordering::Equal
    } else {
        Ordering::Greater
    }
}

/// An arbitrary-precision integer.
#[derive(Debug, Eq, PartialEq)]
pub struct BigInt {
    sign: Sign,
    magnitude: BigUint,
}

/// The result of the extended Euclidean algorithm: `gcd(|a|, |b|)` with Bézout
/// coefficients `x` and `y` such that `a * x + b * y == gcd`.
#[derive(Debug, Eq, PartialEq)]
pub struct ExtendedGcd {
    gcd: BigUint,
    x: BigInt,
    y: BigInt,
}

impl View for ExtendedGcd {
    type V = (nat, int, int);

    closed spec fn view(&self) -> (nat, int, int) {
        (self.gcd@, self.x@, self.y@)
    }
}

impl ExtendedGcd {
    /// The greatest common divisor.
    pub fn gcd(&self) -> (r: &BigUint)
        ensures
            r@ == self@.0,
    {
        &self.gcd
    }

    /// The coefficient of the left operand.
    pub fn x(&self) -> (r: &BigInt)
        ensures
            r@ == self@.1,
    {
        &self.x
    }

    /// The coefficient of the right operand.
    pub fn y(&self) -> (r: &BigInt)
        ensures
            r@ == self@.2,
    {
        &self.y
    }

    /// An independent copy.
    pub fn try_clone(&self) -> (r: Result<Self, BigintError>)
        ensures
            match r {
                Ok(v) => v@ == self@,
                Err(e) => e is AllocationFailure,
            },
    {
        proof {
            use_type_invariant(&self.gcd);
            self.gcd.lemma_shape();
            use_type_invariant(&self.x);
            use_type_invariant(&self.y);
            use_type_invariant(&self.x.magnitude);
            use_type_invariant(&self.y.magnitude);
            self.x.magnitude.lemma_shape();
            self.y.magnitude.lemma_shape();
        }
        let gcd = self.gcd.try_clone()?;
        let x = self.x.try_clone()?;
        let y = self.y.try_clone()?;
        Ok(ExtendedGcd { gcd, x, y })
    }
}

impl View for BigInt {
    type V = int;

    closed spec fn view(&self) -> int {
        signed(self.sign, self.magnitude@)
    }
}

impl BigInt {
    /// The sign is zero exactly for a zero magnitude.
    #[verifier::type_invariant]
    pub closed spec fn well_formed(self) -> bool {
        &&& (self.sign == Sign::Zero) == (self.magnitude@ == 0)
        &&& limb_count(self.magnitude@) <= MAX_LIMBS
    }

    /// The magnitude of every integer of this type fits the limb limit.
    pub proof fn lemma_magnitude(&self)
        requires
            self.well_formed(),
        ensures
            limb_count(abs(self@)) <= MAX_LIMBS,
    {
    }

    /// Zero.
    pub fn zero() -> (r: Self)
        ensures
            r@ == 0,
    {
        BigInt { sign: Sign::Zero, magnitude: BigUint::zero() }
    }

    /// One.
    pub fn one() -> (r: Result<Self, BigintError>)
        ensures
            produces_int(r, 1),
            match r {
                Ok(v) => v@ == 1,
                Err(e) => e == BigintError::AllocationFailure { requested_limbs: 1 },
            },
    {
        let magnitude = BigUint::one()?;
        Ok(Self::from_sign_magnitude(Sign::Positive, magnitude))
    }

    /// The integer of this sign and magnitude; a zero magnitude gives zero and a
    /// zero sign with a nonzero magnitude reads as positive.
    pub fn from_sign_magnitude(sign: Sign, magnitude: BigUint) -> (r: Self)
        ensures
            r@ == signed(
                if sign == Sign::Zero {
                    Sign::Positive
                } else {
                    sign
                },
                magnitude@,
            ),
    {
        proof {
            use_type_invariant(&magnitude);
            magnitude.lemma_shape();
        }
        let sign = if magnitude.is_zero() {
            Sign::Zero
        } else if sign == Sign::Zero {
            Sign::Positive
        } else {
            sign
        };
        BigInt { sign, magnitude }
    }

    /// The sign.
    pub fn sign(&self) -> (r: Sign)
        ensures
            r == sign_of(self@),
    {
        proof {
            use_type_invariant(self);
        }
        self.sign
    }

    /// The magnitude, `|self|`.
    pub fn magnitude(&self) -> (r: &BigUint)
        ensures
            r@ == abs(self@),
    {
        proof {
            use_type_invariant(self);
        }
        &self.magnitude
    }

    /// Whether the value is zero.
    pub fn is_zero(&self) -> (r: bool)
        ensures
            r == (self@ == 0),
    {
        proof {
            use_type_invariant(self);
        }
        self.sign == Sign::Zero
    }

    /// An independent copy.
    pub fn try_clone(&self) -> (r: Result<Self, BigintError>)
        ensures
            produces_int(r, self@),
    {
        proof {
            use_type_invariant(self);
        }
        let magnitude = self.magnitude.try_clone()?;
        Ok(BigInt { sign: self.sign, magnitude })
    }

    /// The magnitude as a new natural.
    pub fn abs(&self) -> (r: Result<BigUint, BigintError>)
        ensures
            produces(r, abs(self@)),
    {
        proof {
            use_type_invariant(self);
        }
        self.magnitude.try_clone()
    }

    /// The negation.
    pub fn negated(&self) -> (r: Result<Self, BigintError>)
        ensures
            produces_int(r, -self@),
    {
        proof {
            use_type_invariant(self);
        }
        let sign = match self.sign {
            Sign::Negative => Sign::Positive,
            Sign::Zero => Sign::Zero,
            Sign::Positive => Sign::Negative,
        };
        let magnitude = self.magnitude.try_clone()?;
        Ok(BigInt { sign, magnitude })
    }

    /// The value divided by `2^bits`, rounded toward zero, reusing the magnitude.
    pub(crate) fn into_shr_bits(self, bits: usize) -> (r: Self)
        ensures
            r@ == signed(sign_of(self@), abs(self@) / vstd::arithmetic::power2::pow2(bits as nat)),
    {
        proof {
            use_type_invariant(&self);
        }
        let BigInt { sign, magnitude } = self;
        let shifted = magnitude.into_shr_bits(bits);
        proof {
            vstd::arithmetic::power2::lemma_pow2_pos(bits as nat);
        }
        Self::from_sign_magnitude(sign, shifted)
    }
}

/// The sign of a product.
pub(crate) fn product_sign(left: Sign, right: Sign) -> (r: Sign)
    ensures
        r == sign_of(signed(left, 1) * signed(right, 1)),
{
    match (left, right) {
        (Sign::Zero, _) | (_, Sign::Zero) => Sign::Zero,
        (Sign::Negative, Sign::Negative) | (Sign::Positive, Sign::Positive) => Sign::Positive,
        _ => Sign::Negative,
    }
}

impl BigInt {
    /// The sum.
    pub fn add(&self, rhs: &Self) -> (r: Result<Self, BigintError>)
        ensures
            produces_int(r, self@ + rhs@),
    {
        proof {
            use_type_invariant(self);
            use_type_invariant(rhs);
        }
        if self.sign == Sign::Zero {
            return rhs.try_clone();
        }
        if rhs.sign == Sign::Zero {
            return self.try_clone();
        }
        if self.sign == rhs.sign {
            let magnitude = self.magnitude.add(&rhs.magnitude)?;
            return Ok(Self::from_sign_magnitude(self.sign, magnitude));
        }
        if rhs.magnitude.less_than(&self.magnitude) {
            let magnitude = self.magnitude.checked_sub(&rhs.magnitude)?;
            Ok(Self::from_sign_magnitude(self.sign, magnitude))
        } else if self.magnitude.less_than(&rhs.magnitude) {
            let magnitude = rhs.magnitude.checked_sub(&self.magnitude)?;
            Ok(Self::from_sign_magnitude(rhs.sign, magnitude))
        } else {
            Ok(Self::zero())
        }
    }

    /// The difference.
    pub fn sub(&self, rhs: &Self) -> (r: Result<Self, BigintError>)
        ensures
            int_result(r, self@ - rhs@),
    {
        proof {
            use_type_invariant(rhs);
            use_type_invariant(&rhs.magnitude);
            rhs.magnitude.lemma_shape();
        }
        let negated = rhs.negated()?;
        self.add(&negated)
    }

    /// The product; as for naturals, the product of the limb counts must fit in `usize`.
    pub fn mul(&self, rhs: &Self) -> (r: Result<Self, BigintError>)
        ensures
            (r matches Ok(v) ==> v@ == self@ * rhs@),
            self@ == 0 || rhs@ == 0 ==> r is Ok,
            self@ != 0 && rhs@ != 0 && limb_count(abs(self@)) * limb_count(abs(rhs@)) > usize::MAX
                ==> r == Err::<BigInt, BigintError>(BigintError::CapacityOverflow),
            self@ != 0 && rhs@ != 0 && limb_count(abs(self@)) * limb_count(abs(rhs@))
                <= usize::MAX ==> produces_int(r, self@ * rhs@),
    {
        proof {
            use_type_invariant(self);
            use_type_invariant(rhs);
        }
        let sign = product_sign(self.sign, rhs.sign);
        proof {
            lemma_abs_mul(self@, rhs@);
            lemma_signed_mul(self.sign, rhs.sign, self.magnitude@, rhs.magnitude@);
        }
        let magnitude = self.magnitude.mul(&rhs.magnitude)?;
        Ok(Self::from_sign_magnitude(sign, magnitude))
    }
}

/// Division with remainder has one answer: `q` and `r` with `x == q * d + r` and
/// `0 <= r < |d|` are the Euclidean quotient and remainder.
pub proof fn lemma_euclid_unique(x: int, d: int, q: int, r: int)
    requires
        d != 0,
        0 <= r < abs(d),
        x == q * d + r,
    ensures
        q == x / d,
        r == x % d,
{
    if d > 0 {
        vstd::arithmetic::div_mod::lemma_fundamental_div_mod_converse(x, d, q, r);
    } else {
        assert(q == x / d && r == x % d) by (nonlinear_arith)
            requires
                d < 0,
                0 <= r < -d,
                x == q * d + r,
        ;
    }
}

/// `(-1)^e` is `1` for even `e` and `-1` for odd `e`.
pub proof fn lemma_pow_minus_one(e: nat)
    ensures
        pow(-1, e) == if e % 2 == 0 {
            1int
        } else {
            -1int
        },
    decreases e,
{
    reveal(pow);
    if e > 0 {
        lemma_pow_minus_one((e - 1) as nat);
    }
}

impl BigInt {
    /// Euclidean division: the quotient `q` and the remainder `r` with
    /// `self == q * divisor + r` and `0 <= r < |divisor|`.
    pub fn div_rem_euclid(&self, divisor: &Self) -> (r: Result<(Self, BigUint), BigintError>)
        ensures
            divisor@ == 0 ==> r == Err::<(BigInt, BigUint), BigintError>(
                BigintError::DivisionByZero,
            ),
            divisor@ != 0 ==> match r {
                Ok((quotient, remainder)) => quotient@ == self@ / divisor@ && remainder@ == self@
                    % divisor@,
                Err(e) => e is AllocationFailure,
            },
    {
        proof {
            use_type_invariant(self);
            use_type_invariant(divisor);
            use_type_invariant(&self.magnitude);
            use_type_invariant(&divisor.magnitude);
            self.magnitude.lemma_shape();
            divisor.magnitude.lemma_shape();
        }
        if divisor.is_zero() {
            return Err(BigintError::DivisionByZero);
        }
        let (magnitude_quotient, remainder) = self.magnitude.div_rem(&divisor.magnitude)?;
        let ghost a = self@;
        let ghost d = divisor@;
        let ghost big_a = self.magnitude@ as int;
        let ghost big_d = divisor.magnitude@ as int;
        let ghost q0 = magnitude_quotient@ as int;
        let ghost r0 = remainder@ as int;
        proof {
            vstd::arithmetic::div_mod::lemma_fundamental_div_mod(big_a, big_d);
            vstd::arithmetic::div_mod::lemma_mod_bound(big_a, big_d);
            assert(big_a == q0 * big_d + r0) by (nonlinear_arith)
                requires
                    big_a == big_d * (big_a / big_d) + big_a % big_d,
                    q0 == big_a / big_d,
                    r0 == big_a % big_d,
            ;
        }
        let quotient_sign = product_sign(self.sign, divisor.sign);
        let quotient = Self::from_sign_magnitude(quotient_sign, magnitude_quotient);
        if self.sign != Sign::Negative || remainder.is_zero() {
            proof {
                if self.sign == Sign::Zero {
                    assert(q0 == 0 && r0 == 0) by (nonlinear_arith)
                        requires
                            big_a == 0,
                            big_d > 0,
                            big_a == q0 * big_d + r0,
                            0 <= r0 < big_d,
                            q0 >= 0,
                    ;
                    lemma_euclid_unique(a, d, 0, 0);
                } else if self.sign == Sign::Positive {
                    if divisor.sign == Sign::Positive {
                        lemma_euclid_unique(a, d, q0, r0);
                    } else {
                        assert(a == (-q0) * d + r0) by (nonlinear_arith)
                            requires
                                a == q0 * big_d + r0,
                                d == -big_d,
                        ;
                        lemma_euclid_unique(a, d, -q0, r0);
                    }
                } else {
                    if divisor.sign == Sign::Positive {
                        assert(a == (-q0) * d) by (nonlinear_arith)
                            requires
                                a == -(q0 * big_d),
                                d == big_d,
                        ;
                        lemma_euclid_unique(a, d, -q0, 0);
                    } else {
                        assert(a == q0 * d) by (nonlinear_arith)
                            requires
                                a == -(q0 * big_d),
                                d == -big_d,
                        ;
                        lemma_euclid_unique(a, d, q0, 0);
                    }
                }
            }
            return Ok((quotient, remainder));
        }
        proof {
            lemma_limb_count_mono(1, big_a as nat);
            lemma_limb_count_mono((big_d - r0) as nat, big_d as nat);
        }
        let one = BigUint::one()?;
        let divisor_sign = Self::from_sign_magnitude(divisor.sign, one);
        proof {
            // Here `r0 > 0`, so `|d| >= 2` and `q0 + 1 <= |a|`: the corrected quotient fits.
            assert(q0 + 1 <= big_a) by (nonlinear_arith)
                requires
                    big_a == q0 * big_d + r0,
                    0 < r0 < big_d,
                    q0 >= 0,
            ;
            lemma_limb_count_mono((q0 + 1) as nat, big_a as nat);
            if divisor.sign == Sign::Positive {
                assert(abs(quotient@ - divisor_sign@) == q0 + 1);
            } else {
                assert(abs(quotient@ - divisor_sign@) == q0 + 1);
            }
        }
        let corrected_quotient = quotient.sub(&divisor_sign)?;
        let corrected_remainder = divisor.magnitude.checked_sub(&remainder)?;
        proof {
            if divisor.sign == Sign::Positive {
                assert(a == (-(q0 + 1)) * d + (big_d - r0)) by (nonlinear_arith)
                    requires
                        a == -(q0 * big_d + r0),
                        d == big_d,
                ;
                lemma_euclid_unique(a, d, -(q0 + 1), big_d - r0);
            } else {
                assert(a == (q0 + 1) * d + (big_d - r0)) by (nonlinear_arith)
                    requires
                        a == -(q0 * big_d + r0),
                        d == -big_d,
                ;
                lemma_euclid_unique(a, d, q0 + 1, big_d - r0);
            }
        }
        Ok((corrected_quotient, corrected_remainder))
    }

    /// The quotient of a division of magnitudes that leaves no remainder, with the
    /// sign of the product.
    pub fn exact_div(&self, divisor: &Self) -> (r: Result<Self, BigintError>)
        ensures
            divisor@ == 0 ==> r == Err::<BigInt, BigintError>(BigintError::DivisionByZero),
            divisor@ != 0 ==> match r {
                Ok(q) => q@ * divisor@ == self@,
                Err(e) => e is AllocationFailure || (e == BigintError::NonExactDivision && abs(
                    self@,
                ) % abs(divisor@) != 0),
            },
            divisor@ != 0 && abs(self@) % abs(divisor@) != 0 ==> r is Err,
    {
        proof {
            use_type_invariant(self);
            use_type_invariant(divisor);
        }
        if divisor.is_zero() {
            return Err(BigintError::DivisionByZero);
        }
        let quotient = self.magnitude.exact_div(&divisor.magnitude)?;
        let sign = product_sign(self.sign, divisor.sign);
        proof {
            let big_a = self.magnitude@;
            let big_d = divisor.magnitude@;
            let q = quotient@;
            assert(q == 0 <==> big_a == 0) by (nonlinear_arith)
                requires
                    q * big_d == big_a,
                    big_d > 0,
            ;
            lemma_signed_mul(sign, divisor.sign, q, big_d);
            if sign != Sign::Zero {
                assert(sign_of(signed(sign, 1) * signed(divisor.sign, 1)) == self.sign);
            }
        }
        Ok(Self::from_sign_magnitude(sign, quotient))
    }

    /// The value raised to `exponent`.
    pub fn pow_u32(&self, exponent: u32) -> (r: Result<Self, BigintError>)
        ensures
            match r {
                Ok(v) => v@ == pow(self@, exponent as nat),
                Err(e) => e is AllocationFailure || e is CapacityOverflow,
            },
    {
        proof {
            use_type_invariant(self);
        }
        let odd = exponent & 1 != 0;
        proof {
            assert(odd == (exponent % 2 == 1)) by (bit_vector)
                requires
                    odd == (exponent & 1 != 0),
            ;
        }
        let sign = if exponent == 0 {
            Sign::Positive
        } else if self.sign == Sign::Negative && odd {
            Sign::Negative
        } else if self.sign == Sign::Zero {
            Sign::Zero
        } else {
            Sign::Positive
        };
        let magnitude = self.magnitude.pow_u32(exponent)?;
        proof {
            let e = exponent as nat;
            let big_a = self.magnitude@ as int;
            lemma_pow0(self@);
            if big_a > 0 {
                lemma_pow_positive(big_a, e);
            }
            if self.sign == Sign::Negative {
                lemma_pow_distributes(-1, big_a, e);
                lemma_pow_minus_one(e);
                assert(-1 * big_a == self@);
                let p = pow(big_a, e);
                let m = pow(-1, e);
                assert(m * p == if e % 2 == 0 { p } else { -p }) by (nonlinear_arith)
                    requires
                        m == if e % 2 == 0 { 1int } else { -1int },
                ;
                if e % 2 == 1 {
                    assert(pow(self@, e) == -pow(big_a, e));
                } else {
                    assert(pow(self@, e) == pow(big_a, e));
                }
            } else if self.sign == Sign::Zero {
                if e > 0 {
                    lemma0_pow(e);
                }
            } else {
                assert(self@ == big_a);
            }
        }
        Ok(Self::from_sign_magnitude(sign, magnitude))
    }
}

impl BigInt {
    /// The extended Euclidean algorithm on the magnitudes, with the coefficients
    /// signed so that `self * x + rhs * y == gcd(|self|, |rhs|)`.
    pub fn extended_gcd(&self, rhs: &Self) -> (r: Result<ExtendedGcd, BigintError>)
        ensures
            match r {
                Ok(g) => g@.0 == gcd_spec(abs(self@), abs(rhs@)) && self@ * g@.1 + rhs@ * g@.2
                    == g@.0,
                Err(e) => e is AllocationFailure || e is CapacityOverflow,
            },
    {
        proof {
            use_type_invariant(self);
            use_type_invariant(rhs);
        }
        let ghost big_a = self.magnitude@ as int;
        let ghost big_b = rhs.magnitude@ as int;
        let mut old_remainder = self.magnitude.try_clone()?;
        let mut remainder = rhs.magnitude.try_clone()?;
        let mut old_x = Self::one()?;
        let mut x = Self::zero();
        let mut old_y = Self::zero();
        let mut y = Self::one()?;
        while !remainder.is_zero()
            invariant
                gcd_spec(old_remainder@, remainder@) == gcd_spec(big_a as nat, big_b as nat),
                old_x@ * big_a + old_y@ * big_b == old_remainder@,
                x@ * big_a + y@ * big_b == remainder@,
            decreases remainder@,
        {
            let (quotient, next_remainder) = old_remainder.div_rem(&remainder)?;
            let quotient = Self::from_sign_magnitude(Sign::Positive, quotient);
            let ghost q = quotient@;
            let ghost rem = remainder@ as int;
            let ghost old_rem = old_remainder@ as int;
            proof {
                vstd::arithmetic::div_mod::lemma_fundamental_div_mod(old_rem, rem);
                vstd::arithmetic::div_mod::lemma_mod_bound(old_rem, rem);
                assert(gcd_spec(old_remainder@, remainder@) == gcd_spec(
                    remainder@,
                    old_remainder@ % remainder@,
                ));
            }
            let qx = quotient.mul(&x)?;
            let next_x = old_x.sub(&qx)?;
            let qy = quotient.mul(&y)?;
            let next_y = old_y.sub(&qy)?;
            proof {
                let n = next_remainder@ as int;
                lemma_bezout_step(old_x@, old_y@, x@, y@, q, big_a, big_b);
                assert(rem * q == q * rem) by (nonlinear_arith);
            }
            old_remainder = remainder;
            remainder = next_remainder;
            old_x = x;
            x = next_x;
            old_y = y;
            y = next_y;
        }
        let ghost x0 = old_x@;
        let ghost y0 = old_y@;
        if self.sign == Sign::Negative {
            old_x = old_x.negated()?;
        }
        if rhs.sign == Sign::Negative {
            old_y = old_y.negated()?;
        }
        proof {
            assert(self@ * old_x@ == big_a * x0) by (nonlinear_arith)
                requires
                    self@ == (if self.sign == Sign::Negative { -big_a } else { big_a }),
                    old_x@ == (if self.sign == Sign::Negative { -x0 } else { x0 }),
            ;
            assert(rhs@ * old_y@ == big_b * y0) by (nonlinear_arith)
                requires
                    rhs@ == (if rhs.sign == Sign::Negative { -big_b } else { big_b }),
                    old_y@ == (if rhs.sign == Sign::Negative { -y0 } else { y0 }),
            ;
            assert(gcd_spec(old_remainder@, 0) == old_remainder@);
        }
        Ok(ExtendedGcd { gcd: old_remainder, x: old_x, y: old_y })
    }
}

/// One step of the extended Euclidean recurrence keeps the Bézout combination.
pub proof fn lemma_bezout_step(ox: int, oy: int, x: int, y: int, q: int, a: int, b: int)
    ensures
        (ox - q * x) * a + (oy - q * y) * b == (ox * a + oy * b) - q * (x * a + y * b),
{
    assert((ox - q * x) * a == ox * a - q * (x * a)) by (nonlinear_arith);
    assert((oy - q * y) * b == oy * b - q * (y * b)) by (nonlinear_arith);
    assert(q * (x * a) + q * (y * b) == q * (x * a + y * b)) by (nonlinear_arith);
}

/// `|a * b| == |a| * |b|`.
pub proof fn lemma_abs_mul(a: int, b: int)
    ensures
        abs(a * b) == abs(a) * abs(b),
{
    if a < 0 && b < 0 {
        assert(a * b == (-a) * (-b)) by (nonlinear_arith);
        assert((-a) * (-b) >= 0) by (nonlinear_arith)
            requires
                a < 0,
                b < 0,
        ;
    } else if a < 0 {
        assert(a * b == -((-a) * b)) by (nonlinear_arith);
        assert((-a) * b >= 0) by (nonlinear_arith)
            requires
                a < 0,
                b >= 0,
        ;
    } else if b < 0 {
        assert(a * b == -(a * (-b))) by (nonlinear_arith);
        assert(a * (-b) >= 0) by (nonlinear_arith)
            requires
                a >= 0,
                b < 0,
        ;
    } else {
        assert(a * b >= 0) by (nonlinear_arith)
            requires
                a >= 0,
                b >= 0,
        ;
    }
}

/// The signed product of two sign-magnitude pairs.
pub proof fn lemma_signed_mul(s1: Sign, s2: Sign, m1: nat, m2: nat)
    requires
        (s1 == Sign::Zero) == (m1 == 0),
        (s2 == Sign::Zero) == (m2 == 0),
    ensures
        signed(s1, m1) * signed(s2, m2) == signed(
            if sign_of(signed(s1, 1) * signed(s2, 1)) == Sign::Zero {
                Sign::Positive
            } else {
                sign_of(signed(s1, 1) * signed(s2, 1))
            },
            m1 * m2,
        ),
        m1 * m2 == 0 <==> (m1 == 0 || m2 == 0),
{
    assert(m1 * m2 == 0 <==> (m1 == 0 || m2 == 0)) by (nonlinear_arith);
    let a = signed(s1, m1);
    let b = signed(s2, m2);
    match s1 {
        Sign::Negative => match s2 {
            Sign::Negative => {
                assert((-m1) * (-m2) == m1 * m2) by (nonlinear_arith);
            },
            Sign::Positive => {
                assert((-m1) * m2 == -(m1 * m2)) by (nonlinear_arith);
            },
            Sign::Zero => {
                assert(a * 0 == 0);
            },
        },
        Sign::Positive => match s2 {
            Sign::Negative => {
                assert(m1 * (-m2) == -(m1 * m2)) by (nonlinear_arith);
            },
            _ => {},
        },
        Sign::Zero => {},
    }
}

/// The position of a sign in the order `Negative < Zero < Positive`.
pub(crate) fn sign_rank(sign: Sign) -> (r: u8)
    ensures
        r == (match sign {
            Sign::Negative => 0u8,
            Sign::Zero => 1u8,
            Sign::Positive => 2u8,
        }),
{
    match sign {
        Sign::Negative => 0,
        Sign::Zero => 1,
        Sign::Positive => 2,
    }
}

impl BigInt {
    /// Three-way comparison by value.
    pub fn cmp(&self, rhs: &Self) -> (r: Ordering)
        ensures
            r == ordering_of_int(self@, rhs@),
    {
        proof {
            use_type_invariant(self);
            use_type_invariant(rhs);
        }
        if self.sign == Sign::Negative && rhs.sign == Sign::Negative {
            rhs.magnitude.cmp(&self.magnitude)
        } else if self.sign == rhs.sign {
            self.magnitude.cmp(&rhs.magnitude)
        } else if sign_rank(self.sign) < sign_rank(rhs.sign) {
            Ordering::Less
        } else {
            Ordering::Greater
        }
    }
}

impl BigInt {
    /// Whether this integer is smaller than `rhs`.
    pub(crate) fn is_less_than(&self, rhs: &Self) -> (r: bool)
        ensures
            r == (self@ < rhs@),
    {
        match self.cmp(rhs) {
            Ordering::Less => true,
            _ => false,
        }
    }
}

impl PartialOrd for BigInt {
    fn partial_cmp(&self, other: &Self) -> (r: Option<Ordering>) {
        Some(self.cmp(other))
    }
}

impl vstd::std_specs::cmp::PartialOrdSpecImpl for BigInt {
    open spec fn obeys_partial_cmp_spec() -> bool {
        true
    }

    open spec fn partial_cmp_spec(&self, other: &Self) -> Option<Ordering> {
        Some(ordering_of_int(self@, other@))
    }
}

impl BigInt {
    /// The integer with value `value`, from a nonnegative machine integer.
    fn from_unsigned(value: u64) -> (r: Result<Self, BigintError>)
        ensures
            produces_int(r, value as int),
    {
        let magnitude = BigUint::from_u64(value)?;
        Ok(Self::from_sign_magnitude(Sign::Positive, magnitude))
    }

    /// The integer with value `value`, from a signed machine integer.
    fn from_signed(value: i64) -> (r: Result<Self, BigintError>)
        ensures
            produces_int(r, value as int),
    {
        let sign = if value < 0 {
            Sign::Negative
        } else if value == 0 {
            Sign::Zero
        } else {
            Sign::Positive
        };
        let wide = value as i128;
        let unsigned: u64 = if wide < 0 {
            (-wide) as u64
        } else {
            wide as u64
        };
        let magnitude = BigUint::from_u64(unsigned)?;
        Ok(Self::from_sign_magnitude(sign, magnitude))
    }
}

impl vstd::std_specs::convert::TryFromSpecImpl<u8> for BigInt {
    open spec fn obeys_try_from_spec() -> bool {
        false
    }

    open spec fn try_from_spec(v: u8) -> Result<Self, Self::Error> {
        Err(BigintError::CapacityOverflow)
    }
}

impl TryFrom<u8> for BigInt {
    type Error = BigintError;

    fn try_from(value: u8) -> (r: Result<Self, Self::Error>)
        ensures
            produces_int(r, value as int),
    {
        Self::from_unsigned(value as u64)
    }
}

impl vstd::std_specs::convert::TryFromSpecImpl<u16> for BigInt {
    open spec fn obeys_try_from_spec() -> bool {
        false
    }

    open spec fn try_from_spec(v: u16) -> Result<Self, Self::Error> {
        Err(BigintError::CapacityOverflow)
    }
}

impl TryFrom<u16> for BigInt {
    type Error = BigintError;

    fn try_from(value: u16) -> (r: Result<Self, Self::Error>)
        ensures
            produces_int(r, value as int),
    {
        Self::from_unsigned(value as u64)
    }
}

impl vstd::std_specs::convert::TryFromSpecImpl<u32> for BigInt {
    open spec fn obeys_try_from_spec() -> bool {
        false
    }

    open spec fn try_from_spec(v: u32) -> Result<Self, Self::Error> {
        Err(BigintError::CapacityOverflow)
    }
}

impl TryFrom<u32> for BigInt {
    type Error = BigintError;

    fn try_from(value: u32) -> (r: Result<Self, Self::Error>)
        ensures
            produces_int(r, value as int),
    {
        Self::from_unsigned(value as u64)
    }
}

impl vstd::std_specs::convert::TryFromSpecImpl<u64> for BigInt {
    open spec fn obeys_try_from_spec() -> bool {
        false
    }

    open spec fn try_from_spec(v: u64) -> Result<Self, Self::Error> {
        Err(BigintError::CapacityOverflow)
    }
}

impl TryFrom<u64> for BigInt {
    type Error = BigintError;

    fn try_from(value: u64) -> (r: Result<Self, Self::Error>)
        ensures
            produces_int(r, value as int),
    {
        Self::from_unsigned(value as u64)
    }
}

impl vstd::std_specs::convert::TryFromSpecImpl<usize> for BigInt {
    open spec fn obeys_try_from_spec() -> bool {
        false
    }

    open spec fn try_from_spec(v: usize) -> Result<Self, Self::Error> {
        Err(BigintError::CapacityOverflow)
    }
}

impl TryFrom<usize> for BigInt {
    type Error = BigintError;

    fn try_from(value: usize) -> (r: Result<Self, Self::Error>)
        ensures
            produces_int(r, value as int),
    {
        Self::from_unsigned(value as u64)
    }
}

impl vstd::std_specs::convert::TryFromSpecImpl<i8> for BigInt {
    open spec fn obeys_try_from_spec() -> bool {
        false
    }

    open spec fn try_from_spec(v: i8) -> Result<Self, Self::Error> {
        Err(BigintError::CapacityOverflow)
    }
}

impl TryFrom<i8> for BigInt {
    type Error = BigintError;

    fn try_from(value: i8) -> (r: Result<Self, Self::Error>)
        ensures
            produces_int(r, value as int),
    {
        Self::from_signed(value as i64)
    }
}

impl vstd::std_specs::convert::TryFromSpecImpl<i16> for BigInt {
    open spec fn obeys_try_from_spec() -> bool {
        false
    }

    open spec fn try_from_spec(v: i16) -> Result<Self, Self::Error> {
        Err(BigintError::CapacityOverflow)
    }
}

impl TryFrom<i16> for BigInt {
    type Error = BigintError;

    fn try_from(value: i16) -> (r: Result<Self, Self::Error>)
        ensures
            produces_int(r, value as int),
    {
        Self::from_signed(value as i64)
    }
}

impl vstd::std_specs::convert::TryFromSpecImpl<i32> for BigInt {
    open spec fn obeys_try_from_spec() -> bool {
        false
    }

    open spec fn try_from_spec(v: i32) -> Result<Self, Self::Error> {
        Err(BigintError::CapacityOverflow)
    }
}

impl TryFrom<i32> for BigInt {
    type Error = BigintError;

    fn try_from(value: i32) -> (r: Result<Self, Self::Error>)
        ensures
            produces_int(r, value as int),
    {
        Self::from_signed(value as i64)
    }
}

impl vstd::std_specs::convert::TryFromSpecImpl<i64> for BigInt {
    open spec fn obeys_try_from_spec() -> bool {
        false
    }

    open spec fn try_from_spec(v: i64) -> Result<Self, Self::Error> {
        Err(BigintError::CapacityOverflow)
    }
}

impl TryFrom<i64> for BigInt {
    type Error = BigintError;

    fn try_from(value: i64) -> (r: Result<Self, Self::Error>)
        ensures
            produces_int(r, value as int),
    {
        Self::from_signed(value as i64)
    }
}

impl vstd::std_specs::convert::TryFromSpecImpl<isize> for BigInt {
    open spec fn obeys_try_from_spec() -> bool {
        false
    }

    open spec fn try_from_spec(v: isize) -> Result<Self, Self::Error> {
        Err(BigintError::CapacityOverflow)
    }
}

impl TryFrom<isize> for BigInt {
    type Error = BigintError;

    fn try_from(value: isize) -> (r: Result<Self, Self::Error>)
        ensures
            produces_int(r, value as int),
    {
        Self::from_signed(value as i64)
    }
}

} // verus!
