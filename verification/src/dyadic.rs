//! Dyadic rationals `integer / 2^exponent` in normal form, and closed intervals of them.
use crate::error::BigintError;
use crate::integer::{abs, ordering_of_int, sign_of, sign_rank, signed, BigInt, Sign};
use crate::natural::{bit_count, bit_of, lemma_bit_count_bounds, ordering_of};
use core::cmp::Ordering;
use crate::natural::BigUint;
use vstd::arithmetic::power2::{lemma_pow2_pos, lemma_pow2_unfold, pow2};
use vstd::prelude::*;

verus! {

/// The normal form of `n / 2^e`: factors of two are cancelled while the exponent
/// is positive, and zero has exponent zero.
pub open spec fn dyadic_normal(n: int, e: nat) -> (int, nat)
    decreases e,
{
    if n == 0 {
        (0, 0)
    } else if e > 0 && n % 2 == 0 {
        dyadic_normal(n / 2, (e - 1) as nat)
    } else {
        (n, e)
    }
}

/// An integer/exponent pair in normal form: zero has exponent zero, and a positive
/// exponent comes with an odd integer.
pub open spec fn is_normal(v: (int, nat)) -> bool {
    &&& v.0 == 0 ==> v.1 == 0
    &&& v.1 > 0 ==> v.0 % 2 != 0
}

/// `a / 2^e` and `b / 2^f` are the same number.
pub open spec fn same_value(a: int, e: nat, b: int, f: nat) -> bool {
    a * pow2(f) == b * pow2(e)
}

/// Normalizing yields a normal form of the same value.
pub proof fn lemma_dyadic_normal(n: int, e: nat)
    ensures
        is_normal(dyadic_normal(n, e)),
        same_value(n, e, dyadic_normal(n, e).0, dyadic_normal(n, e).1),
        dyadic_normal(n, e).1 <= e,
    decreases e,
{
    if n != 0 && e > 0 && n % 2 == 0 {
        let m = n / 2;
        let f = (e - 1) as nat;
        lemma_dyadic_normal(m, f);
        let v = dyadic_normal(m, f);
        lemma_pow2_unfold(e);
        assert(n * pow2(v.1) == v.0 * pow2(e)) by (nonlinear_arith)
            requires
                m * pow2(v.1) == v.0 * pow2(f),
                n == 2 * m,
                pow2(e) == 2 * pow2(f),
        ;
    } else if n == 0 {
        assert(n * pow2(0) == 0 * pow2(e));
    }
}

/// Two normal forms of the same value are equal: the normal form is canonical.
pub proof fn lemma_normal_unique(v: (int, nat), w: (int, nat))
    requires
        is_normal(v),
        is_normal(w),
        same_value(v.0, v.1, w.0, w.1),
    ensures
        v == w,
{
    if v.1 <= w.1 {
        lemma_normal_unique_ordered(v, w);
    } else {
        lemma_normal_unique_ordered(w, v);
    }
}

proof fn lemma_normal_unique_ordered(v: (int, nat), w: (int, nat))
    requires
        is_normal(v),
        is_normal(w),
        same_value(v.0, v.1, w.0, w.1),
        v.1 <= w.1,
    ensures
        v == w,
{
    let k = (w.1 - v.1) as nat;
    vstd::arithmetic::power2::lemma_pow2_adds(v.1, k);
    lemma_pow2_pos(v.1);
    lemma_pow2_pos(k);
    assert(v.0 * pow2(k) == w.0) by (nonlinear_arith)
        requires
            v.0 * (pow2(v.1) * pow2(k)) == w.0 * pow2(v.1),
            pow2(v.1) > 0,
    ;
    if k > 0 {
        lemma_pow2_unfold(k);
        assert(w.0 == 2 * (v.0 * pow2((k - 1) as nat))) by (nonlinear_arith)
            requires
                v.0 * pow2(k) == w.0,
                pow2(k) == 2 * pow2((k - 1) as nat),
        ;
        assert(w.0 % 2 == 0);
        assert(false);
    } else {
        vstd::arithmetic::power2::lemma2_to64();
        assert(pow2(k) == 1);
        assert(w.0 == v.0);
        assert(w.1 == v.1);
    }
}

/// A dyadic rational `integer / 2^exponent` in normal form.
#[derive(Debug, Eq, PartialEq)]
pub struct Dyadic {
    integer: BigInt,
    exponent: u32,
}

impl View for Dyadic {
    type V = (int, nat);

    closed spec fn view(&self) -> (int, nat) {
        (self.integer@, self.exponent as nat)
    }
}

/// The signed integer with the sign of `n` and the magnitude `m`.
proof fn lemma_halve_signed(n: int, m: nat)
    requires
        n != 0,
        m % 2 == 0,
    ensures
        signed(sign_of(n), m) % 2 == 0,
        signed(sign_of(n), m) / 2 == signed(sign_of(n), m / 2),
{
    let h = m / 2;
    assert(m == 2 * h);
    if n < 0 {
        assert((-m) % 2 == 0 && (-m) / 2 == -h) by (nonlinear_arith)
            requires
                m == 2 * h,
        ;
    }
}

impl Dyadic {
    /// Normal form: holds of every value of this type.
    #[verifier::type_invariant]
    pub open spec fn well_formed(self) -> bool {
        is_normal(self@)
    }

    /// The exponent fits in `u32`.
    pub proof fn lemma_exponent_bound(self)
        ensures
            self@.1 <= u32::MAX,
    {
    }

    /// The normal form of `integer / 2^exponent`.
    pub fn new(integer: BigInt, exponent: u32) -> (r: Self)
        ensures
            r@ == dyadic_normal(integer@, exponent as nat),
    {
        proof {
            lemma_dyadic_normal(integer@, exponent as nat);
        }
        if integer.is_zero() {
            return Dyadic { integer, exponent: 0 };
        }
        let ghost n = integer@;
        let ghost big = abs(n);
        let ghost e = exponent as nat;
        let mut removed: u32 = 0;
        proof {
            vstd::arithmetic::power2::lemma2_to64();
        }
        while removed < exponent && !integer.magnitude().bit(removed as usize)
            invariant
                removed <= exponent,
                n == integer@,
                n != 0,
                big == abs(n),
                e == exponent,
                big % pow2(removed as nat) == 0,
                dyadic_normal(n, e) == dyadic_normal(
                    signed(sign_of(n), big / pow2(removed as nat)),
                    (e - removed) as nat,
                ),
            decreases exponent - removed,
        {
            let ghost r = removed as nat;
            let ghost m = big / pow2(r);
            proof {
                lemma_pow2_pos(r);
                lemma_pow2_unfold(r + 1);
                vstd::arithmetic::div_mod::lemma_fundamental_div_mod(big as int, pow2(r) as int);
                assert(m % 2 == 0);
                assert(m > 0) by (nonlinear_arith)
                    requires
                        big == pow2(r) * m,
                        big > 0,
                ;
                lemma_halve_signed(n, m);
                vstd::arithmetic::div_mod::lemma_div_denominator(big as int, pow2(r) as int, 2);
                assert(big / pow2(r + 1) == m / 2);
                assert(big == (m / 2) * pow2(r + 1)) by (nonlinear_arith)
                    requires
                        big == pow2(r) * m,
                        m % 2 == 0,
                        pow2(r + 1) == 2 * pow2(r),
                ;
                vstd::arithmetic::div_mod::lemma_mod_multiples_basic((m / 2) as int, pow2(r + 1) as int);
                assert(signed(sign_of(n), m) != 0);
            }
            removed = removed + 1;
        }
        proof {
            let r = removed as nat;
            let m = big / pow2(r);
            lemma_pow2_pos(r);
            vstd::arithmetic::div_mod::lemma_fundamental_div_mod(big as int, pow2(r) as int);
            assert(m > 0) by (nonlinear_arith)
                requires
                    big == pow2(r) * m,
                    big > 0,
            ;
            if removed < exponent {
                assert(m % 2 == 1);
                if n < 0 {
                    assert((-m) % 2 != 0) by (nonlinear_arith)
                        requires
                            m % 2 == 1,
                    ;
                }
            }
        }
        let shifted = integer.into_shr_bits(removed as usize);
        Dyadic { integer: shifted, exponent: exponent - removed }
    }

    /// The integer part `integer` of `integer / 2^exponent`.
    pub fn integer(&self) -> (r: &BigInt)
        ensures
            r@ == self@.0,
    {
        &self.integer
    }

    /// The exponent.
    pub fn exponent(&self) -> (r: u32)
        ensures
            r == self@.1,
    {
        self.exponent
    }

    /// Whether the value is zero.
    pub fn is_zero(&self) -> (r: bool)
        ensures
            r == (self@.0 == 0),
    {
        self.integer.is_zero()
    }

    /// An independent copy.
    pub fn try_clone(&self) -> (r: Result<Self, BigintError>)
        ensures
            match r {
                Ok(v) => v@ == self@,
                Err(e) => e is AllocationFailure,
            },
    {
        proof {
            use_type_invariant(self);
            use_type_invariant(&self.integer);
            self.integer.lemma_magnitude();
        }
        let integer = self.integer.try_clone()?;
        Ok(Dyadic { integer, exponent: self.exponent })
    }
}

/// `value * 2^bits`.
fn shifted_integer(value: &BigInt, bits: u32) -> (r: Result<BigInt, BigintError>)
    ensures
        match r {
            Ok(v) => v@ == value@ * pow2(bits as nat),
            Err(e) => e is AllocationFailure || e is CapacityOverflow,
        },
{
    proof {
        use_type_invariant(value);
        value.lemma_magnitude();
        vstd::arithmetic::power2::lemma2_to64();
    }
    if value.is_zero() || bits == 0 {
        proof {
            assert(pow2(0) == 1);
            assert(value@ * pow2(bits as nat) == value@) by (nonlinear_arith)
                requires
                    value@ == 0 || pow2(bits as nat) == 1,
            ;
        }
        return value.try_clone();
    }
    let magnitude = value.magnitude().shl_bits(bits as usize)?;
    proof {
        let p = pow2(bits as nat);
        lemma_pow2_pos(bits as nat);
        assert(abs(value@) * p > 0) by (nonlinear_arith)
            requires
                abs(value@) > 0,
                p > 0,
        ;
        if value@ < 0 {
            assert(value@ * p == -(abs(value@) * p)) by (nonlinear_arith)
                requires
                    abs(value@) == -value@,
            ;
        }
    }
    Ok(BigInt::from_sign_magnitude(value.sign(), magnitude))
}

/// The failure of an exponent that would need `required`, more than `u32` holds.
fn exponent_overflow(required: u64) -> (r: BigintError)
    ensures
        match r {
            BigintError::ExponentOverflow { required: q, maximum } => q@ == required && maximum
                == u32::MAX,
            BigintError::AllocationFailure { .. } => true,
            _ => false,
        },
{
    match BigUint::try_from(required) {
        Ok(required) => BigintError::ExponentOverflow { required, maximum: u32::MAX },
        Err(error) => {
            proof {
                crate::natural::lemma_limb_count_u64(required);
            }
            error
        },
    }
}

/// The larger of two exponents.
fn max_exponent(a: u32, b: u32) -> (r: u32)
    ensures
        r == if a >= b {
            a
        } else {
            b
        },
{
    if a >= b {
        a
    } else {
        b
    }
}

impl Dyadic {
    /// The sum, in normal form.
    pub fn add(&self, rhs: &Self) -> (r: Result<Self, BigintError>)
        ensures
            match r {
                Ok(v) => {
                    let c = if self@.1 >= rhs@.1 { self@.1 } else { rhs@.1 };
                    v@ == dyadic_normal(
                        self@.0 * pow2((c - self@.1) as nat) + rhs@.0 * pow2((c - rhs@.1) as nat),
                        c,
                    )
                },
                Err(e) => e is AllocationFailure || e is CapacityOverflow,
            },
    {
        self.add_with(rhs, false)
    }

    /// The difference, in normal form.
    pub fn sub(&self, rhs: &Self) -> (r: Result<Self, BigintError>)
        ensures
            match r {
                Ok(v) => {
                    let c = if self@.1 >= rhs@.1 { self@.1 } else { rhs@.1 };
                    v@ == dyadic_normal(
                        self@.0 * pow2((c - self@.1) as nat) - rhs@.0 * pow2((c - rhs@.1) as nat),
                        c,
                    )
                },
                Err(e) => e is AllocationFailure || e is CapacityOverflow,
            },
    {
        self.add_with(rhs, true)
    }

    /// The product, in normal form; the exponents' sum must fit in `u32`.
    pub fn mul(&self, rhs: &Self) -> (r: Result<Self, BigintError>)
        ensures
            self@.1 + rhs@.1 > u32::MAX ==> match r {
                Ok(_) => false,
                Err(e) => match e {
                    BigintError::ExponentOverflow { required, maximum } => required@ == self@.1
                        + rhs@.1 && maximum == u32::MAX,
                    BigintError::AllocationFailure { .. } => true,
                    _ => false,
                },
            },
            self@.1 + rhs@.1 <= u32::MAX ==> match r {
                Ok(v) => v@ == dyadic_normal(self@.0 * rhs@.0, self@.1 + rhs@.1),
                Err(e) => e is AllocationFailure || e is CapacityOverflow,
            },
    {
        let exponent = match self.exponent.checked_add(rhs.exponent) {
            Some(value) => value,
            None => {
                return Err(exponent_overflow(self.exponent as u64 + rhs.exponent as u64));
            },
        };
        let integer = self.integer.mul(&rhs.integer)?;
        Ok(Self::new(integer, exponent))
    }

    /// The mean of two values, in normal form; the common exponent plus one must
    /// fit in `u32`.
    pub fn midpoint(&self, rhs: &Self) -> (r: Result<Self, BigintError>)
        ensures
            ({
                let c = if self@.1 >= rhs@.1 { self@.1 } else { rhs@.1 };
                &&& c + 1 > u32::MAX ==> match r {
                    Ok(_) => false,
                    Err(e) => match e {
                        BigintError::ExponentOverflow { required, maximum } => required@ == c + 1
                            && maximum == u32::MAX,
                        BigintError::AllocationFailure { .. } => true,
                        _ => false,
                    },
                }
                &&& c + 1 <= u32::MAX ==> match r {
                    Ok(v) => v@ == dyadic_normal(
                        self@.0 * pow2((c - self@.1) as nat) + rhs@.0 * pow2((c - rhs@.1) as nat),
                        c + 1,
                    ),
                    Err(e) => e is AllocationFailure || e is CapacityOverflow,
                }
            }),
    {
        let common = max_exponent(self.exponent, rhs.exponent);
        let exponent = match common.checked_add(1) {
            Some(value) => value,
            None => {
                return Err(exponent_overflow(common as u64 + 1));
            },
        };
        let left = shifted_integer(&self.integer, common - self.exponent)?;
        let right = shifted_integer(&rhs.integer, common - rhs.exponent)?;
        let sum = left.add(&right)?;
        Ok(Self::new(sum, exponent))
    }

    fn add_with(&self, rhs: &Self, subtract: bool) -> (r: Result<Self, BigintError>)
        ensures
            match r {
                Ok(v) => {
                    let c = if self@.1 >= rhs@.1 { self@.1 } else { rhs@.1 };
                    let left = self@.0 * pow2((c - self@.1) as nat);
                    let right = rhs@.0 * pow2((c - rhs@.1) as nat);
                    v@ == dyadic_normal(
                        if subtract {
                            left - right
                        } else {
                            left + right
                        },
                        c,
                    )
                },
                Err(e) => e is AllocationFailure || e is CapacityOverflow,
            },
    {
        let common = max_exponent(self.exponent, rhs.exponent);
        let left = shifted_integer(&self.integer, common - self.exponent)?;
        let right = shifted_integer(&rhs.integer, common - rhs.exponent)?;
        let integer = if subtract {
            left.sub(&right)?
        } else {
            left.add(&right)?
        };
        Ok(Self::new(integer, common))
    }
}

/// One more low bit: `v / 2^k == 2 * (v / 2^(k+1)) + bit k of v`.
pub proof fn lemma_bit_step(v: nat, k: nat)
    ensures
        v / pow2(k) == 2 * (v / pow2(k + 1)) + if bit_of(v, k) {
            1nat
        } else {
            0nat
        },
{
    lemma_pow2_pos(k);
    lemma_pow2_unfold(k + 1);
    vstd::arithmetic::div_mod::lemma_div_denominator(v as int, pow2(k) as int, 2);
    assert(pow2(k) * 2 == pow2(k + 1));
    vstd::arithmetic::div_mod::lemma_fundamental_div_mod((v / pow2(k)) as int, 2);
}

/// The bits of `v * 2^s`: those of `v` moved up by `s`, with zeros below.
pub proof fn lemma_shifted_bit(v: nat, s: nat, i: nat)
    ensures
        bit_of(v * pow2(s), i) == (i >= s && bit_of(v, (i - s) as nat)),
{
    lemma_pow2_pos(s);
    lemma_pow2_pos(i);
    if i >= s {
        let t = (i - s) as nat;
        vstd::arithmetic::power2::lemma_pow2_adds(s, t);
        lemma_pow2_pos(t);
        vstd::arithmetic::div_mod::lemma_div_denominator((v * pow2(s)) as int, pow2(s) as int, pow2(t) as int);
        vstd::arithmetic::div_mod::lemma_div_multiples_vanish(v as int, pow2(s) as int);
        assert(v * pow2(s) == pow2(s) * v) by (nonlinear_arith);
    } else {
        let t = (s - i) as nat;
        vstd::arithmetic::power2::lemma_pow2_adds(i, t);
        lemma_pow2_unfold(t);
        let h = pow2((t - 1) as nat);
        assert(v * pow2(s) == (2 * (v * h)) * pow2(i)) by (nonlinear_arith)
            requires
                pow2(s) == pow2(i) * pow2(t),
                pow2(t) == 2 * h,
        ;
        vstd::arithmetic::div_mod::lemma_div_multiples_vanish((2 * (v * h)) as int, pow2(i) as int);
        assert((2 * (v * h)) * pow2(i) == pow2(i) * (2 * (v * h))) by (nonlinear_arith);
        assert((2 * (v * h)) % 2 == 0) by (nonlinear_arith);
    }
}

/// A positive value is at least the power of two below its bit count and less
/// than the one at it; a value below `2^m` has no bits at or above `m`.
proof fn lemma_below_power(v: nat, m: nat)
    requires
        v < pow2(m),
    ensures
        v / pow2(m) == 0,
{
    lemma_pow2_pos(m);
    vstd::arithmetic::div_mod::lemma_basic_div(v as int, pow2(m) as int);
}

/// Comparing the positions of the top bits of `|left|` and `|right|`: `-1`, `0` or `1`.
fn top_order(left_len: usize, left_exponent: u32, right_len: usize, right_exponent: u32) -> (r: i8)
    ensures
        r == -1 <==> left_len - left_exponent < right_len - right_exponent,
        r == 0 <==> left_len - left_exponent == right_len - right_exponent,
        r == 1 <==> left_len - left_exponent > right_len - right_exponent,
{
    let left_top = left_len as i128 - left_exponent as i128;
    let right_top = right_len as i128 - right_exponent as i128;
    if left_top < right_top {
        -1
    } else if left_top == right_top {
        0
    } else {
        1
    }
}

/// Bit `distance` below the top of a value with `len` bits, false past its last bit.
fn bit_from_top(value: &BigUint, len: usize, distance: usize) -> (r: bool)
    requires
        len == bit_count(value@),
    ensures
        r == (distance < len && bit_of(value@, (len - 1 - distance) as nat)),
{
    if distance < len {
        value.bit(len - 1 - distance)
    } else {
        false
    }
}

/// The larger of two lengths.
fn max_len(a: usize, b: usize) -> (r: usize)
    ensures
        r == if a >= b {
            a
        } else {
            b
        },
{
    if a >= b {
        a
    } else {
        b
    }
}

/// Compares `|left|` with `|right|` without expanding either exponent: `-1`, `0` or `1`.
fn absolute_order(left: &Dyadic, right: &Dyadic) -> (r: i8)
    requires
        left@.0 != 0,
        right@.0 != 0,
    ensures
        r == order_code(abs(left@.0) * pow2(right@.1), abs(right@.0) * pow2(left@.1)),
{
    let left_magnitude = left.integer.magnitude();
    let right_magnitude = right.integer.magnitude();
    let left_len = left_magnitude.bit_len();
    let right_len = right_magnitude.bit_len();
    let ghost big_l = left_magnitude@;
    let ghost big_r = right_magnitude@;
    let ghost a = left@.1;
    let ghost b = right@.1;
    proof {
        lemma_bit_count_bounds(big_l);
        lemma_bit_count_bounds(big_r);
    }
    let order = top_order(left_len, left.exponent, right_len, right.exponent);
    if order != 0 {
        proof {
            lemma_top_order(big_l, big_r, left_len as nat, right_len as nat, a, b);
        }
        if order < 0 {
            return -1;
        } else {
            return 1;
        }
    }
    let count = max_len(left_len, right_len);
    let ghost m = count as nat;
    let ghost x = big_l * pow2((m - left_len) as nat);
    let ghost y = big_r * pow2((m - right_len) as nat);
    proof {
        lemma_aligned_bounds(big_l, left_len as nat, m);
        lemma_aligned_bounds(big_r, right_len as nat, m);
        lemma_below_power(x, m);
        lemma_below_power(y, m);
    }
    let mut distance: usize = 0;
    while distance < count
        invariant
            distance <= count,
            m == count,
            left_len == bit_count(big_l),
            right_len == bit_count(big_r),
            big_l == left_magnitude@,
            big_r == right_magnitude@,
            count == if left_len >= right_len { left_len } else { right_len },
            left_len - a == right_len - b,
            big_l == abs(left@.0),
            big_r == abs(right@.0),
            a == left@.1,
            b == right@.1,
            x == big_l * pow2((m - left_len) as nat),
            y == big_r * pow2((m - right_len) as nat),
            x / pow2((m - distance) as nat) == y / pow2((m - distance) as nat),
        decreases count - distance,
    {
        let left_bit = bit_from_top(left_magnitude, left_len, distance);
        let right_bit = bit_from_top(right_magnitude, right_len, distance);
        let ghost k = (m - distance - 1) as nat;
        proof {
            lemma_shifted_bit(big_l, (m - left_len) as nat, k);
            lemma_shifted_bit(big_r, (m - right_len) as nat, k);
            lemma_bit_step(x, k);
            lemma_bit_step(y, k);
            assert(k + 1 == m - distance);
        }
        if left_bit != right_bit {
            proof {
                lemma_div_order(x, y, k);
                lemma_div_order(y, x, k);
                lemma_aligned_order(big_l, big_r, left_len as nat, right_len as nat, a, b, m);
            }
            if left_bit {
                return 1;
            } else {
                return -1;
            }
        }
        distance = distance + 1;
    }
    proof {
        vstd::arithmetic::power2::lemma2_to64();
        assert(pow2(0) == 1);
        assert((m - distance) as nat == 0);
        assert(x / 1 == x && y / 1 == y);
        assert(x == y);
        lemma_aligned_order(big_l, big_r, left_len as nat, right_len as nat, a, b, m);
    }
    0
}

/// `-1`, `0` or `1` as `x` is below, equal to or above `y`.
pub open spec fn order_code(x: nat, y: nat) -> int {
    if x < y {
        -1
    } else if x == y {
        0
    } else {
        1
    }
}

/// Compares `|left|` with `|right|` without expanding either exponent.
fn compare_absolute(left: &Dyadic, right: &Dyadic) -> (r: Ordering)
    requires
        left@.0 != 0,
        right@.0 != 0,
    ensures
        r == ordering_of(abs(left@.0) * pow2(right@.1), abs(right@.0) * pow2(left@.1)),
{
    let order = absolute_order(left, right);
    if order < 0 {
        Ordering::Less
    } else if order == 0 {
        Ordering::Equal
    } else {
        Ordering::Greater
    }
}


/// If `x / 2^k > y / 2^k` then `x > y`.
proof fn lemma_div_order(x: nat, y: nat, k: nat)
    ensures
        x / pow2(k) > y / pow2(k) ==> x > y,
{
    lemma_pow2_pos(k);
    if x <= y {
        vstd::arithmetic::div_mod::lemma_div_is_ordered(x as int, y as int, pow2(k) as int);
    }
}

/// A value with `len` bits, moved up to `m >= len` bits, stays below `2^m`.
proof fn lemma_aligned_bounds(v: nat, len: nat, m: nat)
    requires
        len <= m,
        v > 0 ==> v < pow2(len),
        v == 0 ==> len == 0,
    ensures
        v * pow2((m - len) as nat) < pow2(m),
{
    let s = (m - len) as nat;
    vstd::arithmetic::power2::lemma_pow2_adds(len, s);
    lemma_pow2_pos(s);
    lemma_pow2_pos(m);
    if v > 0 {
        assert(v * pow2(s) < pow2(len) * pow2(s)) by (nonlinear_arith)
            requires
                v < pow2(len),
                pow2(s) > 0,
        ;
    }
}

/// With equal top positions, comparing the aligned values compares the dyadics.
proof fn lemma_aligned_order(l: nat, r: nat, len_l: nat, len_r: nat, a: nat, b: nat, m: nat)
    requires
        len_l - a == len_r - b,
        len_l <= m,
        len_r <= m,
    ensures
        ({
            let x = l * pow2((m - len_l) as nat);
            let y = r * pow2((m - len_r) as nat);
            &&& x < y <==> l * pow2(b) < r * pow2(a)
            &&& x == y <==> l * pow2(b) == r * pow2(a)
        }),
{
    let sl = (m - len_l) as nat;
    let sr = (m - len_r) as nat;
    assert(sl == m - len_l && sr == m - len_r);
    let t = (b + sl) as nat;
    let u = (a + sl) as nat;
    assert(u == sr + b);
    vstd::arithmetic::power2::lemma_pow2_adds(b, sl);
    vstd::arithmetic::power2::lemma_pow2_adds(a, sl);
    vstd::arithmetic::power2::lemma_pow2_adds(b, sr);
    lemma_pow2_pos(sl);
    let x = l * pow2(sl);
    let y = r * pow2(sr);
    let p = pow2(sl);
    let lb = l * pow2(b);
    let ra = r * pow2(a);
    assert(lb * p == x * pow2(b)) by (nonlinear_arith)
        requires
            x == l * pow2(sl),
            p == pow2(sl),
            lb == l * pow2(b),
    ;
    assert(ra * p == y * pow2(b)) by (nonlinear_arith)
        requires
            pow2(u) == pow2(a) * pow2(sl),
            pow2(u) == pow2(b) * pow2(sr),
            y == r * pow2(sr),
            p == pow2(sl),
            ra == r * pow2(a),
    ;
    lemma_pow2_pos(b);
    assert((x < y <==> lb < ra) && (x == y <==> lb == ra)) by (nonlinear_arith)
        requires
            lb * p == x * pow2(b),
            ra * p == y * pow2(b),
            p > 0,
            pow2(b) > 0,
    ;
}

/// Different top positions decide the comparison.
proof fn lemma_top_order(l: nat, r: nat, len_l: nat, len_r: nat, a: nat, b: nat)
    requires
        l > 0,
        r > 0,
        len_l == bit_count(l),
        len_r == bit_count(r),
        pow2((len_l - 1) as nat) <= l < pow2(len_l),
        pow2((len_r - 1) as nat) <= r < pow2(len_r),
        len_l >= 1,
        len_r >= 1,
    ensures
        len_l - a > len_r - b ==> l * pow2(b) > r * pow2(a),
        len_l - a < len_r - b ==> l * pow2(b) < r * pow2(a),
{
    if len_l - a > len_r - b {
        lemma_top_order_one(l, r, len_l, len_r, a, b);
    } else if len_l - a < len_r - b {
        lemma_top_order_one(r, l, len_r, len_l, b, a);
    }
}

proof fn lemma_top_order_one(l: nat, r: nat, len_l: nat, len_r: nat, a: nat, b: nat)
    requires
        pow2((len_l - 1) as nat) <= l,
        r < pow2(len_r),
        len_l >= 1,
        len_l - a > len_r - b,
    ensures
        l * pow2(b) > r * pow2(a),
{
    let low = (len_l - 1 + b) as nat;
    let high = (len_r + a) as nat;
    vstd::arithmetic::power2::lemma_pow2_adds((len_l - 1) as nat, b);
    vstd::arithmetic::power2::lemma_pow2_adds(len_r, a);
    lemma_pow2_pos(a);
    lemma_pow2_pos(b);
    if high < low {
        vstd::arithmetic::power2::lemma_pow2_strictly_increases(high, low);
    }
    assert(l * pow2(b) >= pow2((len_l - 1) as nat) * pow2(b)) by (nonlinear_arith)
        requires
            pow2((len_l - 1) as nat) <= l,
            pow2(b) > 0,
    ;
    assert(r * pow2(a) < pow2(len_r) * pow2(a)) by (nonlinear_arith)
        requires
            r < pow2(len_r),
            pow2(a) > 0,
    ;
}

impl Dyadic {
    /// Three-way comparison by value.
    pub fn cmp(&self, other: &Self) -> (r: Ordering)
        ensures
            r == ordering_of_int(self@.0 * pow2(other@.1), other@.0 * pow2(self@.1)),
    {
        proof {
            use_type_invariant(self);
            use_type_invariant(other);
            lemma_pow2_pos(self@.1);
            lemma_pow2_pos(other@.1);
            lemma_sign_scaled(self@.0, other@.1);
            lemma_sign_scaled(other@.0, self@.1);
        }
        let left_sign = self.integer.sign();
        let right_sign = other.integer.sign();
        if left_sign != right_sign {
            if sign_rank(left_sign) < sign_rank(right_sign) {
                Ordering::Less
            } else {
                Ordering::Greater
            }
        } else if left_sign == Sign::Zero {
            Ordering::Equal
        } else if left_sign == Sign::Positive {
            compare_absolute(self, other)
        } else {
            compare_absolute(other, self)
        }
    }
}

/// Whether `left > right` as numbers.
pub(crate) fn is_greater(left: &Dyadic, right: &Dyadic) -> (r: bool)
    ensures
        r == !dyadic_le(left@, right@),
{
    match left.cmp(right) {
        Ordering::Greater => true,
        _ => false,
    }
}

/// Scaling by a power of two keeps the sign and scales the magnitude.
proof fn lemma_sign_scaled(n: int, e: nat)
    ensures
        sign_of(n * pow2(e)) == sign_of(n),
        abs(n * pow2(e)) == abs(n) * pow2(e),
{
    lemma_pow2_pos(e);
    let p = pow2(e) as int;
    if n < 0 {
        assert(n * p < 0 && n * p == -((-n) * p)) by (nonlinear_arith)
            requires
                n < 0,
                p > 0,
        ;
    } else if n > 0 {
        assert(n * p > 0) by (nonlinear_arith)
            requires
                n > 0,
                p > 0,
        ;
    }
}

impl PartialOrd for Dyadic {
    fn partial_cmp(&self, other: &Self) -> (r: Option<Ordering>) {
        Some(self.cmp(other))
    }
}

impl vstd::std_specs::cmp::PartialOrdSpecImpl for Dyadic {
    open spec fn obeys_partial_cmp_spec() -> bool {
        true
    }

    open spec fn partial_cmp_spec(&self, other: &Self) -> Option<Ordering> {
        Some(ordering_of_int(self@.0 * pow2(other@.1), other@.0 * pow2(self@.1)))
    }
}

/// `a / 2^a.1 <= b / 2^b.1`.
pub open spec fn dyadic_le(a: (int, nat), b: (int, nat)) -> bool {
    a.0 * pow2(b.1) <= b.0 * pow2(a.1)
}

/// A closed interval `[lower, upper]` of dyadic rationals with `lower <= upper`.
#[derive(Debug, Eq, PartialEq)]
pub struct DyadicEnclosure {
    lower: Dyadic,
    upper: Dyadic,
}

impl View for DyadicEnclosure {
    type V = ((int, nat), (int, nat));

    closed spec fn view(&self) -> ((int, nat), (int, nat)) {
        (self.lower@, self.upper@)
    }
}

impl DyadicEnclosure {
    /// The endpoints are in order: holds of every value of this type.
    #[verifier::type_invariant]
    pub open spec fn well_formed(self) -> bool {
        dyadic_le(self@.0, self@.1)
    }

    /// The interval `[lower, upper]`; reversed endpoints are refused.
    pub fn new(lower: Dyadic, upper: Dyadic) -> (r: Result<Self, BigintError>)
        ensures
            dyadic_le(lower@, upper@) ==> (r matches Ok(v) && v@ == (lower@, upper@)),
            !dyadic_le(lower@, upper@) ==> r == Err::<DyadicEnclosure, BigintError>(
                BigintError::InvalidInterval,
            ),
    {
        if is_greater(&lower, &upper) {
            return Err(BigintError::InvalidInterval);
        }
        Ok(DyadicEnclosure { lower, upper })
    }

    /// The lower endpoint.
    pub fn lower(&self) -> (r: &Dyadic)
        ensures
            r@ == self@.0,
    {
        &self.lower
    }

    /// The upper endpoint.
    pub fn upper(&self) -> (r: &Dyadic)
        ensures
            r@ == self@.1,
    {
        &self.upper
    }

    /// An independent copy.
    pub fn try_clone(&self) -> (r: Result<Self, BigintError>)
        ensures
            match r {
                Ok(v) => v@ == self@,
                Err(e) => e is AllocationFailure,
            },
    {
        proof {
            use_type_invariant(self);
        }
        let lower = self.lower.try_clone()?;
        let upper = self.upper.try_clone()?;
        Ok(DyadicEnclosure { lower, upper })
    }

    /// `upper - lower`.
    pub fn width(&self) -> (r: Result<Dyadic, BigintError>)
        ensures
            match r {
                Ok(v) => {
                    let c = if self@.1.1 >= self@.0.1 { self@.1.1 } else { self@.0.1 };
                    v@ == dyadic_normal(
                        self@.1.0 * pow2((c - self@.1.1) as nat) - self@.0.0 * pow2(
                            (c - self@.0.1) as nat,
                        ),
                        c,
                    )
                },
                Err(e) => e is AllocationFailure || e is CapacityOverflow,
            },
    {
        self.upper.sub(&self.lower)
    }

    /// The midpoint of the endpoints.
    pub fn midpoint(&self) -> (r: Result<Dyadic, BigintError>)
        ensures
            ({
                let c = if self@.0.1 >= self@.1.1 { self@.0.1 } else { self@.1.1 };
                &&& c + 1 > u32::MAX ==> r is Err
                &&& c + 1 <= u32::MAX ==> match r {
                    Ok(v) => v@ == dyadic_normal(
                        self@.0.0 * pow2((c - self@.0.1) as nat) + self@.1.0 * pow2(
                            (c - self@.1.1) as nat,
                        ),
                        c + 1,
                    ),
                    Err(e) => e is AllocationFailure || e is CapacityOverflow,
                }
            }),
    {
        self.lower.midpoint(&self.upper)
    }

    /// Whether `lower <= value <= upper`.
    pub fn contains_dyadic(&self, value: &Dyadic) -> (r: bool)
        ensures
            r == (dyadic_le(self@.0, value@) && dyadic_le(value@, self@.1)),
    {
        !is_greater(&self.lower, value) && !is_greater(value, &self.upper)
    }
}

} // verus!
