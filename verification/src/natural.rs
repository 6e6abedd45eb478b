//! Arbitrary-precision natural numbers in normalized little-endian limbs.
use crate::error::BigintError;
use crate::limbs::{
    lemma_limb_count_range, lemma_normalized_count, lemma_normalized_lower,
    lemma_normalized_unique, lemma_trimmed, lemma_value_single, lemma_weight_mono,
    lemma_weight_succ, lemma_weight_zero, limb, limb_count, normalized, seq_value, trimmed,
    lemma_normalized_len_order, lemma_top_difference_at, lemma_prefix_full, lemma_value_push,
    lemma_weight_pos, lemma_prefix_bound, lemma_value_bound, prefix_value, weight, limb_base,
    lemma_value_drop_zero, lemma_limb_count_lower, column_partial, columns_value,
    lemma_columns_product, lemma_column_zero_terms, lemma_column_term_bound, lemma_weight_adds,
    lemma_value_split, lemma_limb_digit, lemma_value_update, lemma_limb_count_mono,
};
use core::cmp::Ordering;
use vstd::arithmetic::power2::{lemma2_to64, lemma_pow2_adds, lemma_pow2_pos, pow2};
use vstd::arithmetic::div_mod::lemma_div_denominator;
use vstd::bits::{low_bits_mask, lemma_u32_low_bits_mask_is_mod, lemma_u32_shl_is_mul, lemma_u32_shr_is_div, lemma_u64_shl_is_mul, lemma_u64_pow2_no_overflow, lemma_u32_pow2_no_overflow};
use vstd::arithmetic::power::{pow, lemma_pow0, lemma_pow1, lemma_pow_adds, lemma_pow_multiplies};
use vstd::prelude::*;

verus! {

/// The largest number of limbs a natural number may hold.
pub const MAX_LIMBS: usize = usize::MAX / 32;

/// An arbitrary-precision natural number.
#[derive(Debug, Eq, PartialEq)]
pub struct BigUint {
    limbs: Vec<u32>,
}

impl View for BigUint {
    type V = nat;

    closed spec fn view(&self) -> nat {
        seq_value(self.limbs@)
    }
}

/// What an operation that produces a natural of value `value` returns: the value,
/// unless it needs more than `MAX_LIMBS` limbs (capacity overflow), or the limb
/// allocation fails, which reports the exact limb count it asked for.
pub open spec fn produces(r: Result<BigUint, BigintError>, value: nat) -> bool {
    if limb_count(value) > MAX_LIMBS {
        r == Err::<BigUint, BigintError>(BigintError::CapacityOverflow)
    } else {
        match r {
            Ok(v) => v@ == value,
            Err(e) => e == BigintError::AllocationFailure { requested_limbs: limb_count(value) as usize },
        }
    }
}

impl BigUint {
    /// Normalized limbs within the limit; holds of every value of this type.
    #[verifier::type_invariant]
    pub closed spec fn well_formed(self) -> bool {
        normalized(self.limbs@) && self.limbs@.len() <= MAX_LIMBS
    }

    /// The normalized little-endian limbs.
    pub closed spec fn limbs_view(&self) -> Seq<u32> {
        self.limbs@
    }

    /// The limbs are normalized, within the limit, and denote the value.
    pub proof fn lemma_shape(&self)
        requires
            self.well_formed(),
        ensures
            normalized(self.limbs_view()),
            self.limbs_view().len() <= MAX_LIMBS,
            self@ == seq_value(self.limbs_view()),
            self.limbs_view().len() == limb_count(self@),
    {
        lemma_normalized_count(self.limbs@);
    }

    /// Two naturals with the same value have the same limbs.
    pub proof fn lemma_value_determines(&self, other: &Self)
        requires
            self.well_formed(),
            other.well_formed(),
            self@ == other@,
        ensures
            self.limbs_view() == other.limbs_view(),
    {
        lemma_normalized_unique(self.limbs@, other.limbs@);
    }

    /// Zero, with no limbs.
    pub fn zero() -> (r: Self)
        ensures
            r@ == 0,
    {
        BigUint { limbs: Vec::new() }
    }

    /// One.
    pub fn one() -> (r: Result<Self, BigintError>)
        ensures
            produces(r, 1),
            match r {
                Ok(v) => v@ == 1,
                Err(e) => e == BigintError::AllocationFailure { requested_limbs: 1 },
            },
    {
        proof {
            lemma_weight_zero();
            lemma_weight_succ(0);
            lemma_limb_count_range(1, 1);
        }
        let limbs = vec_with_one(1)?;
        proof {
            lemma_value_single(limbs@);
            assert(trimmed(limbs@) == limbs@);
        }
        Self::from_limbs_le(limbs)
    }

    /// A natural from little-endian limbs; high zero limbs are dropped.
    pub fn from_limbs_le(limbs: Vec<u32>) -> (r: Result<Self, BigintError>)
        ensures
            match r {
                Ok(v) => v@ == seq_value(limbs@) && v.limbs_view() == trimmed(limbs@),
                Err(e) => e == BigintError::CapacityOverflow && trimmed(limbs@).len() > MAX_LIMBS,
            },
            trimmed(limbs@).len() <= MAX_LIMBS <==> r is Ok,
    {
        let mut limbs = limbs;
        let ghost original = limbs@;
        proof {
            lemma_trimmed(original);
        }
        while limbs.len() > 0 && limbs[limbs.len() - 1] == 0
            invariant
                trimmed(limbs@) == trimmed(original),
            decreases limbs.len(),
        {
            let ghost before = limbs@;
            limbs.pop();
            proof {
                assert(limbs@ == before.drop_last());
            }
        }
        proof {
            lemma_trimmed(limbs@);
            assert(trimmed(limbs@) == limbs@);
        }
        if limbs.len() <= MAX_LIMBS {
            Ok(BigUint { limbs })
        } else {
            Err(BigintError::CapacityOverflow)
        }
    }

    /// The normalized little-endian limbs.
    pub fn limbs_le(&self) -> (r: &[u32])
        ensures
            r@ == self.limbs_view(),
    {
        self.limbs.as_slice()
    }

    /// Whether the value is zero.
    pub fn is_zero(&self) -> (r: bool)
        ensures
            r == (self@ == 0),
    {
        proof {
            use_type_invariant(self);
            self.lemma_shape();
        }
        self.limbs.len() == 0
    }

    /// The value as a `u32`, when it fits.
    pub fn to_u32(&self) -> (r: Option<u32>)
        ensures
            match r {
                Some(v) => v == self@,
                None => self@ > u32::MAX,
            },
    {
        proof {
            use_type_invariant(self);
            self.lemma_shape();
        }
        if self.limbs.len() == 0 {
            Some(0)
        } else if self.limbs.len() == 1 {
            proof {
                lemma_value_single(self.limbs@);
            }
            Some(self.limbs[0])
        } else {
            proof {
                lemma_normalized_lower(self.limbs@);
                lemma_weight_succ(0);
                lemma_weight_zero();
                lemma_weight_mono(1, (self.limbs@.len() - 1) as nat);
            }
            None
        }
    }

    /// An independent copy; fails only when the limbs cannot be allocated.
    pub fn try_clone(&self) -> (r: Result<Self, BigintError>)
        ensures
            produces(r, self@),
            (r matches Ok(v) ==> v.limbs_view() == self.limbs_view()),
    {
        proof {
            use_type_invariant(self);
            self.lemma_shape();
        }
        let mut limbs: Vec<u32> = Vec::new();
        reserve_limbs(&mut limbs, self.limbs.len())?;
        let n = self.limbs.len();
        let mut i: usize = 0;
        while i < n
            invariant
                n == self.limbs@.len(),
                i <= n,
                limbs@ == self.limbs@.subrange(0, i as int),
            decreases n - i,
        {
            limbs.push(self.limbs[i]);
            i = i + 1;
            proof {
                assert(limbs@ =~= self.limbs@.subrange(0, i as int));
            }
        }
        proof {
            assert(limbs@ =~= self.limbs@);
        }
        Ok(BigUint { limbs })
    }
}

/// Checks a limb count against the limit.
pub fn checked_limb_count(count: usize) -> (r: Result<usize, BigintError>)
    ensures
        count <= MAX_LIMBS ==> r == Ok::<usize, BigintError>(count),
        count > MAX_LIMBS ==> r == Err::<usize, BigintError>(BigintError::CapacityOverflow),
{
    if count <= MAX_LIMBS {
        Ok(count)
    } else {
        Err(BigintError::CapacityOverflow)
    }
}

/// `common + extra`, when it neither overflows nor exceeds `maximum`.
pub fn checked_result_limb_count(common: usize, extra: usize, maximum: usize) -> (r: Result<
    usize,
    BigintError,
>)
    ensures
        common + extra <= maximum ==> r == Ok::<usize, BigintError>((common + extra) as usize),
        common + extra > maximum ==> r == Err::<usize, BigintError>(BigintError::CapacityOverflow),
{
    let required = match common.checked_add(extra) {
        Some(required) => required,
        None => return Err(BigintError::CapacityOverflow),
    };
    if required <= maximum {
        Ok(required)
    } else {
        Err(BigintError::CapacityOverflow)
    }
}

/// Makes room for `total_required` limbs in the empty `limbs`; the allocator may refuse.
pub fn reserve_limbs(limbs: &mut Vec<u32>, total_required: usize) -> (r: Result<(), BigintError>)
    requires
        old(limbs)@.len() == 0,
    ensures
        final(limbs)@ == old(limbs)@,
        total_required > MAX_LIMBS ==> r == Err::<(), BigintError>(BigintError::CapacityOverflow),
        total_required <= MAX_LIMBS ==> (r is Ok || r == Err::<(), BigintError>(
            BigintError::AllocationFailure { requested_limbs: total_required },
        )),
{
    checked_limb_count(total_required)?;
    match limbs.try_reserve(total_required) {
        Ok(()) => Ok(()),
        Err(_) => Err(BigintError::AllocationFailure { requested_limbs: total_required }),
    }
}

fn vec_with_one(value: u32) -> (r: Result<Vec<u32>, BigintError>)
    ensures
        (r matches Ok(v) ==> v@ == seq![value]),
        (r matches Err(e) ==> e == (BigintError::AllocationFailure { requested_limbs: 1 })),
{
    let mut limbs: Vec<u32> = Vec::new();
    reserve_limbs(&mut limbs, 1)?;
    limbs.push(value);
    proof {
        assert(limbs@ =~= seq![value]);
    }
    Ok(limbs)
}

/// Limb `index` of `limbs`, zero beyond the end.
pub fn limb_at(limbs: &[u32], index: usize) -> (r: u32)
    ensures
        r == limb(limbs@, index as int),
{
    if index < limbs.len() {
        limbs[index]
    } else {
        0
    }
}

/// The three-way comparison of two integers.
pub open spec fn ordering_of(a: nat, b: nat) -> Ordering {
    if a < b {
        Ordering::Less
    } else if a == b {
        Ordering::Equal
    } else {
        Ordering::Greater
    }
}

/// One step of carried limb addition, in terms of the positional weight `w`.
proof fn lemma_add_step(p: nat, carry: nat, x: nat, y: nat, w: nat, sum: nat, low: nat, next: nat)
    requires
        sum == x + y + carry,
        low + next * limb_base() == sum,
    ensures
        p + carry * w + (x + y) * w == p + low * w + next * (w * limb_base()),
{
    assert(carry * w + (x + y) * w == sum * w) by (nonlinear_arith)
        requires
            sum == x + y + carry,
    ;
    assert(sum * w == low * w + next * (w * limb_base())) by (nonlinear_arith)
        requires
            low + next * limb_base() == sum,
    ;
}

/// The carry out of adding the lowest `common` limbs of both operands.
fn addition_carry(left: &[u32], right: &[u32], common: usize) -> (r: u64)
    ensures
        r <= 1,
        prefix_value(left@, common as nat) + prefix_value(right@, common as nat) == r * weight(
            common as nat,
        ) + (prefix_value(left@, common as nat) + prefix_value(right@, common as nat)) % weight(
            common as nat,
        ),
        r == (prefix_value(left@, common as nat) + prefix_value(right@, common as nat)) / weight(
            common as nat,
        ),
{
    let mut carry: u64 = 0;
    let mut index: usize = 0;
    let ghost mut low: nat = 0;
    proof {
        lemma_weight_zero();
    }
    while index < common
        invariant
            index <= common,
            carry <= 1,
            low < weight(index as nat),
            prefix_value(left@, index as nat) + prefix_value(right@, index as nat) == carry
                * weight(index as nat) + low,
        decreases common - index,
    {
        let x = limb_at(left, index);
        let y = limb_at(right, index);
        let sum = x as u64 + y as u64 + carry;
        let next = sum >> 32;
        proof {
            let i = index as nat;
            let w = weight(i);
            lemma_weight_succ(i);
            let lo = sum % 0x1_0000_0000;
            assert(next == sum / 0x1_0000_0000) by (bit_vector)
                requires
                    next == sum >> 32,
            ;
            assert(lo + next * limb_base() == sum);
            assert(next <= 1);
            lemma_add_step(low, carry as nat, x as nat, y as nat, w, sum as nat, lo as nat, next as nat);
            assert(prefix_value(left@, i + 1) == prefix_value(left@, i) + x * w);
            assert(prefix_value(right@, i + 1) == prefix_value(right@, i) + y * w);
            assert(x * w + y * w == (x + y) * w) by (nonlinear_arith);
            assert(low + lo * w < w * limb_base()) by (nonlinear_arith)
                requires
                    low < w,
                    lo < limb_base(),
            ;
            low = (low + lo * w) as nat;
        }
        carry = next;
        index = index + 1;
    }
    proof {
        let w = weight(common as nat);
        let t = prefix_value(left@, common as nat) + prefix_value(right@, common as nat);
        lemma_weight_pos(common as nat);
        assert(t / w == carry && t % w == low) by (nonlinear_arith)
            requires
                t == carry * w + low,
                low < w,
                w > 0,
        ;
    }
    carry
}

impl BigUint {
    /// Three-way comparison by value.
    pub fn cmp(&self, rhs: &Self) -> (r: Ordering)
        ensures
            r == ordering_of(self@, rhs@),
    {
        proof {
            use_type_invariant(self);
            use_type_invariant(rhs);
        }
        let left_len = self.limbs.len();
        let right_len = rhs.limbs.len();
        if left_len < right_len {
            proof {
                lemma_normalized_len_order(self.limbs@, rhs.limbs@);
            }
            return Ordering::Less;
        }
        if left_len > right_len {
            proof {
                lemma_normalized_len_order(rhs.limbs@, self.limbs@);
            }
            return Ordering::Greater;
        }
        let mut index = left_len;
        while index > 0
            invariant
                index <= left_len,
                left_len == self.limbs@.len(),
                right_len == rhs.limbs@.len(),
                left_len == right_len,
                forall|i: int| index <= i < left_len ==> self.limbs@[i] == rhs.limbs@[i],
            decreases index,
        {
            index = index - 1;
            let a = self.limbs[index];
            let b = rhs.limbs[index];
            if a < b {
                proof {
                    lemma_top_difference_at(self.limbs@, rhs.limbs@, index);
                }
                return Ordering::Less;
            }
            if a > b {
                proof {
                    lemma_top_difference_at(rhs.limbs@, self.limbs@, index);
                }
                return Ordering::Greater;
            }
        }
        proof {
            assert(self.limbs@ =~= rhs.limbs@);
        }
        Ordering::Equal
    }

    /// Whether `self` is smaller than `rhs`.
    pub fn less_than(&self, rhs: &Self) -> (r: bool)
        ensures
            r == (self@ < rhs@),
    {
        match self.cmp(rhs) {
            Ordering::Less => true,
            _ => false,
        }
    }

    /// The sum.
    pub fn add(&self, rhs: &Self) -> (r: Result<Self, BigintError>)
        ensures
            produces(r, self@ + rhs@),
    {
        proof {
            use_type_invariant(self);
            use_type_invariant(rhs);
            self.lemma_shape();
            rhs.lemma_shape();
        }
        if self.is_zero() {
            return rhs.try_clone();
        }
        if rhs.is_zero() {
            return self.try_clone();
        }
        let common = if self.limbs.len() >= rhs.limbs.len() {
            self.limbs.len()
        } else {
            rhs.limbs.len()
        };
        checked_limb_count(common)?;
        let final_carry = addition_carry(self.limbs.as_slice(), rhs.limbs.as_slice(), common);
        let ghost a = self.limbs@;
        let ghost b = rhs.limbs@;
        let ghost total = self@ + rhs@;
        proof {
            lemma_prefix_full(a, common as nat);
            lemma_prefix_full(b, common as nat);
            // the sum needs `common` limbs, plus one more exactly when there is a carry
            let w = weight(common as nat);
            let wl = weight((common - 1) as nat);
            lemma_weight_succ((common - 1) as nat);
            lemma_weight_succ(common as nat);
            if a.len() == common {
                lemma_normalized_lower(a);
            } else {
                lemma_normalized_lower(b);
            }
            assert(total >= wl);
            if final_carry == 0 {
                assert(total < w) by (nonlinear_arith)
                    requires
                        total == final_carry * w + total % w,
                        final_carry == 0,
                        w > 0,
                ;
                lemma_limb_count_range(total, common as nat);
            } else {
                lemma_value_bound(a);
                lemma_value_bound(b);
                lemma_weight_mono(a.len(), common as nat);
                lemma_weight_mono(b.len(), common as nat);
                assert(total >= w) by (nonlinear_arith)
                    requires
                        total == final_carry * w + total % w,
                        final_carry == 1,
                        w > 0,
                ;
                assert(total < weight((common + 1) as nat));
                lemma_limb_count_range(total, (common + 1) as nat);
            }
        }
        let result_required = checked_result_limb_count(
            common,
            if final_carry != 0 {
                1
            } else {
                0
            },
            usize::MAX,
        )?;
        let mut limbs: Vec<u32> = Vec::new();
        checked_limb_count(result_required)?;
        reserve_limbs(&mut limbs, result_required)?;
        let mut carry: u64 = 0;
        let mut index: usize = 0;
        proof {
            lemma_weight_zero();
        }
        while index < common
            invariant
                index <= common,
                carry <= 1,
                limbs@.len() == index,
                seq_value(limbs@) + carry * weight(index as nat) == prefix_value(a, index as nat)
                    + prefix_value(b, index as nat),
                a == self.limbs@,
                b == rhs.limbs@,
            decreases common - index,
        {
            let x = limb_at(self.limbs.as_slice(), index);
            let y = limb_at(rhs.limbs.as_slice(), index);
            let sum = x as u64 + y as u64 + carry;
            let low = #[verifier::truncate] (sum as u32);
            let next = sum >> 32;
            proof {
                let i = index as nat;
                let w = weight(i);
                lemma_weight_succ(i);
                assert(low as nat + next * limb_base() == sum && next <= 1) by (bit_vector)
                    requires
                        low == sum as u32,
                        next == sum >> 32,
                        sum <= 0x1_ffff_ffff,
                ;
                lemma_value_push(limbs@, low);
                assert(prefix_value(a, i + 1) == prefix_value(a, i) + x * w);
                assert(prefix_value(b, i + 1) == prefix_value(b, i) + y * w);
                assert(x * w + y * w == (x + y) * w) by (nonlinear_arith);
                lemma_add_step(
                    seq_value(limbs@),
                    carry as nat,
                    x as nat,
                    y as nat,
                    w,
                    sum as nat,
                    low as nat,
                    next as nat,
                );
            }
            limbs.push(low);
            carry = next;
            index = index + 1;
        }
        if carry != 0 {
            proof {
                lemma_value_push(limbs@, carry as u32);
            }
            limbs.push(carry as u32);
        }
        proof {
            lemma_trimmed(limbs@);
        }
        Self::from_limbs_le(limbs)
    }
}

/// One step of borrowed limb subtraction.
proof fn lemma_sub_step(pa: int, pb: int, borrow: int, x: int, y: int, w: int, v: int, nb: int)
    requires
        v + y + borrow == x + nb * limb_base(),
    ensures
        (pa - pb + borrow * w) + v * w == (pa + x * w) - (pb + y * w) + nb * (w * limb_base()),
{
    assert(v * w == (x - y - borrow + nb * limb_base()) * w);
    assert((x - y - borrow + nb * limb_base()) * w == x * w - y * w - borrow * w + nb * (w
        * limb_base())) by (nonlinear_arith);
}

/// The borrowed difference of one limb pair: `(digit, next_borrow)`.
fn sub_limb(left: u32, right: u32, borrow: u64) -> (r: (u32, u64))
    requires
        borrow <= 1,
    ensures
        r.1 <= 1,
        r.0 + right + borrow == left + r.1 * limb_base(),
{
    let left = left as u64;
    let right = right as u64 + borrow;
    if left >= right {
        ((left - right) as u32, 0)
    } else {
        ((0x1_0000_0000u64 + left - right) as u32, 1)
    }
}

/// The limb count of the difference of the limbs of `left` and the same number of
/// limbs of `right`, taken modulo the weight of that many limbs.
pub fn subtraction_result_limb_count(left: &[u32], right: &[u32]) -> (r: usize)
    ensures
        r == limb_count(
            ((seq_value(left@) + weight(left@.len()) - prefix_value(right@, left@.len())) as nat)
                % weight(left@.len()),
        ),
{
    let mut borrow: u64 = 0;
    let mut required: usize = 0;
    let mut index: usize = 0;
    let n = left.len();
    let ghost mut digits: Seq<u32> = Seq::empty();
    proof {
        lemma_weight_zero();
    }
    while index < n
        invariant
            n == left@.len(),
            index <= n,
            borrow <= 1,
            digits.len() == index,
            required <= index,
            required == limb_count(seq_value(digits)),
            seq_value(digits) == prefix_value(left@, index as nat) - prefix_value(
                right@,
                index as nat,
            ) + borrow * weight(index as nat),
        decreases n - index,
    {
        let x = left[index];
        let y = limb_at(right, index);
        let (value, next_borrow) = sub_limb(x, y, borrow);
        proof {
            let i = index as nat;
            let w = weight(i);
            lemma_weight_succ(i);
            lemma_value_push(digits, value);
            assert(limb(left@, i as int) == x);
            assert(prefix_value(left@, i + 1) == prefix_value(left@, i) + x * w);
            assert(prefix_value(right@, i + 1) == prefix_value(right@, i) + y * w);
            lemma_sub_step(
                prefix_value(left@, i) as int,
                prefix_value(right@, i) as int,
                borrow as int,
                x as int,
                y as int,
                w as int,
                value as int,
                next_borrow as int,
            );
            if value != 0 {
                lemma_value_bound(digits);
                let d = seq_value(digits);
                assert(w <= d + value * w < w * limb_base()) by (nonlinear_arith)
                    requires
                        d < w,
                        1 <= value < limb_base(),
                ;
                assert(seq_value(digits.push(value)) == d + value * w);
                lemma_limb_count_range(seq_value(digits.push(value)), i + 1);
            } else {
                let z = value as nat;
                let wd = weight(digits.len());
                assert(z * wd == 0) by (nonlinear_arith)
                    requires
                        z == 0,
                ;
                assert(seq_value(digits.push(value)) == seq_value(digits));
            }
            digits = digits.push(value);
        }
        if value != 0 {
            required = index + 1;
        }
        borrow = next_borrow;
        index = index + 1;
    }
    proof {
        let w = weight(n as nat);
        let pa = seq_value(left@);
        let pb = prefix_value(right@, n as nat);
        lemma_value_bound(digits);
        lemma_prefix_bound(right@, n as nat);
        lemma_value_bound(left@);
        let d = seq_value(digits);
        assert(d == ((pa + w - pb) as nat) % w) by (nonlinear_arith)
            requires
                d == pa - pb + borrow * w,
                d < w,
                pa < w,
                pb < w,
                borrow <= 1,
        ;
    }
    required
}

impl BigUint {
    /// The difference, or `UnsignedUnderflow` when `rhs` exceeds `self`.
    pub fn checked_sub(&self, rhs: &Self) -> (r: Result<Self, BigintError>)
        ensures
            self@ < rhs@ ==> r == Err::<BigUint, BigintError>(BigintError::UnsignedUnderflow),
            self@ >= rhs@ ==> produces(r, (self@ - rhs@) as nat),
    {
        proof {
            use_type_invariant(self);
            use_type_invariant(rhs);
            self.lemma_shape();
            rhs.lemma_shape();
        }
        if self.less_than(rhs) {
            return Err(BigintError::UnsignedUnderflow);
        }
        let ghost a = self.limbs@;
        let ghost b = rhs.limbs@;
        let n = self.limbs.len();
        proof {
            if b.len() > a.len() {
                lemma_normalized_len_order(a, b);
            }
            lemma_prefix_full(b, n as nat);
            lemma_value_bound(a);
            let w = weight(n as nat);
            let diff = (self@ - rhs@) as nat;
            assert(((self@ + w - rhs@) as nat) % w == diff) by (nonlinear_arith)
                requires
                    diff == self@ - rhs@,
                    self@ < w,
                    rhs@ <= self@,
            ;
        }
        let result_required = subtraction_result_limb_count(
            self.limbs.as_slice(),
            rhs.limbs.as_slice(),
        );
        let mut limbs: Vec<u32> = Vec::new();
        proof {
            let diff = (self@ - rhs@) as nat;
            lemma_value_bound(a);
            if limb_count(diff) > n {
                lemma_weight_mono(n as nat, (limb_count(diff) - 1) as nat);
                lemma_limb_count_lower(diff);
            }
        }
        reserve_limbs(&mut limbs, result_required)?;
        let mut borrow: u64 = 0;
        let mut index: usize = 0;
        proof {
            lemma_weight_zero();
        }
        while index < n
            invariant
                n == a.len(),
                a == self.limbs@,
                b == rhs.limbs@,
                index <= n,
                borrow <= 1,
                limbs@.len() == index,
                seq_value(limbs@) == prefix_value(a, index as nat) - prefix_value(b, index as nat)
                    + borrow * weight(index as nat),
            decreases n - index,
        {
            let x = self.limbs[index];
            let y = limb_at(rhs.limbs.as_slice(), index);
            let (value, next_borrow) = sub_limb(x, y, borrow);
            proof {
                let i = index as nat;
                let w = weight(i);
                lemma_weight_succ(i);
                lemma_value_push(limbs@, value);
                assert(limb(a, i as int) == x);
                assert(prefix_value(a, i + 1) == prefix_value(a, i) + x * w);
                assert(prefix_value(b, i + 1) == prefix_value(b, i) + y * w);
                lemma_sub_step(
                    prefix_value(a, i) as int,
                    prefix_value(b, i) as int,
                    borrow as int,
                    x as int,
                    y as int,
                    w as int,
                    value as int,
                    next_borrow as int,
                );
            }
            limbs.push(value);
            borrow = next_borrow;
            index = index + 1;
        }
        proof {
            let w = weight(n as nat);
            lemma_value_bound(limbs@);
            assert(borrow == 0) by (nonlinear_arith)
                requires
                    seq_value(limbs@) == self@ - rhs@ + borrow * w,
                    seq_value(limbs@) < w,
                    self@ >= rhs@,
                    borrow <= 1,
            ;
            lemma_trimmed(limbs@);
        }
        Self::from_limbs_le(limbs)
    }
}

/// The smaller of two lengths.
pub open spec fn min_len(a: nat, b: nat) -> nat {
    if a <= b {
        a
    } else {
        b
    }
}

/// Column `diagonal` of the product of `left` and `right`, added to `carry`.
pub(crate) fn column_sum(left: &[u32], right: &[u32], diagonal: usize, carry: u128) -> (r: Option<u128>)
    requires
        left@.len() > 0,
        right@.len() > 0,
        diagonal + 1 < left@.len() + right@.len(),
        min_len(left@.len(), right@.len()) <= MAX_LIMBS,
        carry < min_len(left@.len(), right@.len()) * limb_base(),
    ensures
        r == Some((carry + column_partial(left@, right@, diagonal as nat, left@.len())) as u128),
        carry + column_partial(left@, right@, diagonal as nat, left@.len()) <= carry + min_len(
            left@.len(),
            right@.len(),
        ) * 0xFFFF_FFFE_0000_0001,
{
    let ghost a = left@;
    let ghost b = right@;
    let ghost d = diagonal as nat;
    let ghost m = min_len(left@.len(), right@.len());
    let first = diagonal.saturating_sub(right.len() - 1);
    let last = if diagonal <= left.len() - 1 {
        diagonal
    } else {
        left.len() - 1
    };
    proof {
        assert forall|k: int| 0 <= k < first implies limb(a, k) * limb(b, d - k) == 0 by {
            assert(limb(b, d - k) == 0);
        }
        lemma_column_zero_terms(a, b, d, 0, first as nat);
        assert(last + 1 - first <= m);
        assert(m * limb_base() + m * 0xFFFF_FFFE_0000_0001 < 0x1_0000_0000_0000_0000_0000_0000_0000_0000)
            by (nonlinear_arith)
            requires
                m <= MAX_LIMBS,
                MAX_LIMBS <= 0xFFFF_FFFF_FFFF_FFFFnat / 32,
                limb_base() == 0x1_0000_0000,
        ;
    }
    let mut sum = carry;
    let mut index = first;
    while index <= last
        invariant
            a == left@,
            b == right@,
            d == diagonal,
            first <= index <= last + 1,
            diagonal < first + b.len(),
            last < a.len(),
            last <= diagonal,
            last + 1 - first <= m,
            m == min_len(left@.len(), right@.len()),
            m * limb_base() + m * 0xFFFF_FFFE_0000_0001 < 0x1_0000_0000_0000_0000_0000_0000_0000_0000,
            carry < m * limb_base(),
            sum == carry + column_partial(a, b, d, index as nat),
            column_partial(a, b, d, index as nat) <= (index - first) * 0xFFFF_FFFE_0000_0001,
        decreases last + 1 - index,
    {
        let right_index = diagonal - index;
        proof {
            assert(right_index < right@.len()) by {
                assert(index >= first);
            }
            lemma_column_term_bound(a, b, d, index as int);
            assert(limb(a, index as int) == a[index as int]);
            assert(limb(b, d - index) == b[right_index as int]);
            let c = column_partial(a, b, d, index as nat);
            assert(c + 0xFFFF_FFFE_0000_0001 <= (index + 1 - first) * 0xFFFF_FFFE_0000_0001)
                by (nonlinear_arith)
                requires
                    c <= (index - first) * 0xFFFF_FFFE_0000_0001,
                    index >= first,
            ;
            assert((index + 1 - first) * 0xFFFF_FFFE_0000_0001 <= m * 0xFFFF_FFFE_0000_0001)
                by (nonlinear_arith)
                requires
                    index + 1 - first <= m,
            ;
        }
        let product = (left[index] as u128) * (right[right_index] as u128);
        sum = match sum.checked_add(product) {
            Some(value) => value,
            None => return None,
        };
        index = index + 1;
    }
    proof {
        if last + 1 < a.len() {
            assert forall|k: int| last + 1 <= k < a.len() implies limb(a, k) * limb(b, d - k)
                == 0 by {
                assert(limb(b, d - k) == 0);
            }
            lemma_column_zero_terms(a, b, d, (last + 1) as nat, a.len());
        }
        let c = column_partial(a, b, d, (last + 1) as nat);
        assert(c <= m * 0xFFFF_FFFE_0000_0001) by (nonlinear_arith)
            requires
                c <= (last + 1 - first) * 0xFFFF_FFFE_0000_0001,
                last + 1 - first <= m,
        ;
    }
    Some(sum)
}

/// Advancing the column carry past one column of value `c`.
pub(crate) proof fn lemma_column_carry(
    total: nat,
    carry: nat,
    low: nat,
    c: nat,
    w: nat,
    m: nat,
    sum: nat,
    digit: nat,
    next: nat,
)
    requires
        total == carry * w + low,
        low < w,
        sum == carry + c,
        c <= m * 0xFFFF_FFFE_0000_0001,
        carry < m * limb_base(),
        digit + next * limb_base() == sum,
        digit < limb_base(),
    ensures
        total + c * w == next * (w * limb_base()) + (low + digit * w),
        low + digit * w < w * limb_base(),
        next < m * limb_base(),
{
    assert(total + c * w == sum * w + low) by (nonlinear_arith)
        requires
            total == carry * w + low,
            sum == carry + c,
    ;
    assert(sum * w == next * (w * limb_base()) + digit * w) by (nonlinear_arith)
        requires
            digit + next * limb_base() == sum,
    ;
    assert(low + digit * w < w * limb_base()) by (nonlinear_arith)
        requires
            low < w,
            digit < limb_base(),
    ;
    assert(next < m * limb_base()) by (nonlinear_arith)
        requires
            digit + next * limb_base() == sum,
            sum == carry + c,
            c <= m * 0xFFFF_FFFE_0000_0001,
            carry < m * limb_base(),
            limb_base() == 0x1_0000_0000,
    ;
}

/// The product of the limbs of `left` and `right` as the weighted sum of its columns.
pub(crate) proof fn lemma_columns_are_product(left: Seq<u32>, right: Seq<u32>)
    requires
        left.len() > 0,
        right.len() > 0,
    ensures
        columns_value(left, right, (left.len() + right.len() - 1) as nat, left.len()) == seq_value(
            left,
        ) * seq_value(right),
{
    let n = left.len() + right.len();
    let top = (n - 1) as nat;
    lemma_columns_product(left, right, n, left.len());
    assert forall|k: int| 0 <= k < left.len() implies limb(left, k) * limb(right, top - k) == 0 by {
        assert(limb(right, top - k) == 0);
    }
    lemma_column_zero_terms(left, right, top, 0, left.len());
    assert(columns_value(left, right, n, left.len()) == columns_value(left, right, top, left.len())
        + column_partial(left, right, top, left.len()) * weight(top));
    assert(column_partial(left, right, top, left.len()) * weight(top) == 0) by (nonlinear_arith)
        requires
            column_partial(left, right, top, left.len()) == 0,
    ;
}

/// The column count of a product, plus one when the columns carry out of the top.
pub open spec fn multiplication_columns(left: Seq<u32>, right: Seq<u32>) -> int {
    let minimum = left.len() + right.len() - 1;
    minimum + if (seq_value(left) * seq_value(right)) / weight(minimum as nat) != 0 {
        1int
    } else {
        0int
    }
}

/// What the limb-count pre-pass of a multiplication returns.
pub open spec fn multiplication_count(left: Seq<u32>, right: Seq<u32>) -> Result<usize, BigintError> {
    let minimum = left.len() + right.len() - 1;
    let count = multiplication_columns(left, right);
    if minimum > MAX_LIMBS || count > MAX_LIMBS {
        Err(BigintError::CapacityOverflow)
    } else {
        Ok(count as usize)
    }
}

/// For normalized limbs, the column count (with its carry) is the limb count of the product.
proof fn lemma_multiplication_columns(a: Seq<u32>, b: Seq<u32>)
    requires
        normalized(a),
        normalized(b),
        a.len() > 0,
        b.len() > 0,
    ensures
        multiplication_columns(a, b) == limb_count(seq_value(a) * seq_value(b)),
{
    let minimum = (a.len() + b.len() - 1) as nat;
    let total = seq_value(a) * seq_value(b);
    let w = weight(minimum);
    lemma_weight_pos(minimum);
    lemma_normalized_lower(a);
    lemma_normalized_lower(b);
    lemma_value_bound(a);
    lemma_value_bound(b);
    lemma_weight_adds((a.len() - 1) as nat, (b.len() - 1) as nat);
    lemma_weight_adds(a.len(), b.len());
    lemma_weight_succ(minimum);
    let va = seq_value(a);
    let vb = seq_value(b);
    assert(total >= weight((a.len() - 1) as nat) * weight((b.len() - 1) as nat))
        by (nonlinear_arith)
        requires
            va >= weight((a.len() - 1) as nat),
            vb >= weight((b.len() - 1) as nat),
            total == va * vb,
    ;
    assert(total < weight(a.len()) * weight(b.len())) by (nonlinear_arith)
        requires
            va < weight(a.len()),
            vb < weight(b.len()),
            total == va * vb,
    ;
    assert((a.len() - 1) + (b.len() - 1) + 1 == minimum);
    if total / w == 0 {
        assert(total < w) by (nonlinear_arith)
            requires
                total / w == 0,
                w > 0,
        ;
        lemma_limb_count_range(total, minimum);
    } else {
        assert(total >= w) by (nonlinear_arith)
            requires
                total / w != 0,
                w > 0,
        ;
        lemma_limb_count_range(total, minimum + 1);
    }
}

/// The number of limbs of the product of the limbs `left` and `right`: their
/// column count, plus one when the columns carry out of the top.
pub fn multiplication_result_limb_count(left: &[u32], right: &[u32]) -> (r: Result<usize, BigintError>)
    requires
        left@.len() > 0,
        right@.len() > 0,
    ensures
        r == multiplication_count(left@, right@),
        normalized(left@) && normalized(right@) ==> multiplication_columns(left@, right@)
            == limb_count(seq_value(left@) * seq_value(right@)),
{
    let ghost a = left@;
    let ghost b = right@;
    proof {
        if normalized(a) && normalized(b) {
            lemma_multiplication_columns(a, b);
        }
    }
    let minimum = match left.len().checked_add(right.len()) {
        Some(count) => count - 1,
        None => return Err(BigintError::CapacityOverflow),
    };
    checked_limb_count(minimum)?;
    let ghost m = min_len(a.len(), b.len());
    let mut carry: u128 = 0;
    let mut diagonal: usize = 0;
    let ghost mut low: nat = 0;
    proof {
        lemma_weight_zero();
    }
    while diagonal < minimum
        invariant
            a == left@,
            b == right@,
            a.len() > 0,
            b.len() > 0,
            minimum == a.len() + b.len() - 1,
            minimum <= MAX_LIMBS,
            m == min_len(a.len(), b.len()),
            diagonal <= minimum,
            carry < m * limb_base(),
            low < weight(diagonal as nat),
            columns_value(a, b, diagonal as nat, a.len()) == carry * weight(diagonal as nat) + low,
        decreases minimum - diagonal,
    {
        let sum = match column_sum(left, right, diagonal, carry) {
            Some(sum) => sum,
            None => return Err(BigintError::CapacityOverflow),
        };
        let next = sum >> 32;
        proof {
            let digit = sum % 0x1_0000_0000;
            assert(digit + next * 0x1_0000_0000 == sum && digit < 0x1_0000_0000) by (bit_vector)
                requires
                    next == sum >> 32,
                    digit == sum % 0x1_0000_0000,
            ;
            let w = weight(diagonal as nat);
            let c = column_partial(a, b, diagonal as nat, a.len());
            lemma_weight_succ(diagonal as nat);
            lemma_column_carry(
                columns_value(a, b, diagonal as nat, a.len()),
                carry as nat,
                low,
                c,
                w,
                m,
                sum as nat,
                digit as nat,
                next as nat,
            );
            low = (low + digit * w) as nat;
        }
        carry = next;
        diagonal = diagonal + 1;
    }
    proof {
        lemma_columns_are_product(a, b);
        let total = seq_value(a) * seq_value(b);
        let w = weight(minimum as nat);
        lemma_weight_pos(minimum as nat);
        assert(total / w == carry) by (nonlinear_arith)
            requires
                total == carry * w + low,
                low < w,
                w > 0,
        ;
    }
    checked_result_limb_count(
        minimum,
        if carry != 0 {
            1
        } else {
            0
        },
        MAX_LIMBS,
    )
}

impl BigUint {
    /// The product. Besides the limits of `produces`, the number of limb products
    /// (the product of the two limb counts) must fit in `usize`.
    pub fn mul(&self, rhs: &Self) -> (r: Result<Self, BigintError>)
        ensures
            self@ == 0 || rhs@ == 0 ==> (r matches Ok(v) && v@ == 0),
            (r matches Ok(v) ==> v@ == self@ * rhs@),
            self@ != 0 && rhs@ != 0 && limb_count(self@) * limb_count(rhs@) > usize::MAX ==> r
                == Err::<BigUint, BigintError>(BigintError::CapacityOverflow),
            self@ != 0 && rhs@ != 0 && limb_count(self@) * limb_count(rhs@) <= usize::MAX
                ==> produces(r, self@ * rhs@),
    {
        proof {
            use_type_invariant(self);
            use_type_invariant(rhs);
            self.lemma_shape();
            rhs.lemma_shape();
        }
        if self.is_zero() || rhs.is_zero() {
            proof {
                assert(self@ * rhs@ == 0) by (nonlinear_arith)
                    requires
                        self@ == 0 || rhs@ == 0,
                ;
            }
            return Ok(Self::zero());
        }
        let ghost a = self.limbs@;
        let ghost b = rhs.limbs@;
        match self.limbs.len().checked_mul(rhs.limbs.len()) {
            Some(_) => {},
            None => return Err(BigintError::CapacityOverflow),
        }
        let result_required = multiplication_result_limb_count(
            self.limbs.as_slice(),
            rhs.limbs.as_slice(),
        )?;
        let mut limbs: Vec<u32> = Vec::new();
        reserve_limbs(&mut limbs, result_required)?;
        let minimum = self.limbs.len() + rhs.limbs.len() - 1;
        let ghost m = min_len(a.len(), b.len());
        let mut carry: u128 = 0;
        let mut diagonal: usize = 0;
        proof {
            lemma_weight_zero();
        }
        while diagonal < minimum
            invariant
                a == self.limbs@,
                b == rhs.limbs@,
                a.len() > 0,
                b.len() > 0,
                minimum == a.len() + b.len() - 1,
                minimum <= MAX_LIMBS,
                m == min_len(a.len(), b.len()),
                diagonal <= minimum,
                limbs@.len() == diagonal,
                carry < m * limb_base(),
                columns_value(a, b, diagonal as nat, a.len()) == carry * weight(diagonal as nat)
                    + seq_value(limbs@),
            decreases minimum - diagonal,
        {
            proof {
                lemma_value_bound(limbs@);
            }
            let sum = match column_sum(self.limbs.as_slice(), rhs.limbs.as_slice(), diagonal, carry) {
                Some(sum) => sum,
                None => return Err(BigintError::CapacityOverflow),
            };
            let digit = #[verifier::truncate] (sum as u32);
            let next = sum >> 32;
            proof {
                assert(digit as nat + next * 0x1_0000_0000 == sum) by (bit_vector)
                    requires
                        next == sum >> 32,
                        digit == sum as u32,
                ;
                let w = weight(diagonal as nat);
                let c = column_partial(a, b, diagonal as nat, a.len());
                lemma_weight_succ(diagonal as nat);
                lemma_value_push(limbs@, digit);
                lemma_column_carry(
                    columns_value(a, b, diagonal as nat, a.len()),
                    carry as nat,
                    seq_value(limbs@),
                    c,
                    w,
                    m,
                    sum as nat,
                    digit as nat,
                    next as nat,
                );
            }
            limbs.push(digit);
            carry = next;
            diagonal = diagonal + 1;
        }
        proof {
            lemma_columns_are_product(a, b);
            lemma_value_bound(limbs@);
            lemma_value_bound(a);
            lemma_value_bound(b);
            lemma_weight_adds(a.len(), b.len());
            lemma_weight_succ(minimum as nat);
            let total = self@ * rhs@;
            let w = weight(minimum as nat);
            assert(total < weight(a.len()) * weight(b.len())) by (nonlinear_arith)
                requires
                    self@ < weight(a.len()),
                    rhs@ < weight(b.len()),
                    total == self@ * rhs@,
            ;
            assert(carry < limb_base()) by (nonlinear_arith)
                requires
                    total == carry * w + seq_value(limbs@),
                    total < w * limb_base(),
                    w > 0,
            ;
        }
        if carry != 0 {
            proof {
                lemma_value_push(limbs@, carry as u32);
            }
            limbs.push(carry as u32);
        }
        proof {
            lemma_trimmed(limbs@);
            lemma_normalized_count(trimmed(limbs@));
        }
        Self::from_limbs_le(limbs)
    }
}

/// One limb shifted left by `b < 32` bits, with the bits carried in from below.
proof fn lemma_shl_digit(limb: u64, b: u64, carry: u64)
    requires
        limb < 0x1_0000_0000,
        b < 32,
        carry < (1u64 << b),
    ensures
        ((limb << b) | carry) == limb * (1u64 << b) + carry,
        ((limb << b) | carry) >> 32u64 < (1u64 << b),
        ((limb << b) | carry) < 0x1_0000_0000 * (1u64 << b),
{
    assert(((limb << b) | carry) == limb * (1u64 << b) + carry) by (bit_vector)
        requires
            limb < 0x1_0000_0000,
            b < 32,
            carry < (1u64 << b),
    ;
    assert(((limb << b) | carry) >> 32u64 < (1u64 << b)) by (bit_vector)
        requires
            limb < 0x1_0000_0000,
            b < 32,
            carry < (1u64 << b),
    ;
    assert(limb * (1u64 << b) + carry < 0x1_0000_0000 * (1u64 << b)) by (bit_vector)
        requires
            limb < 0x1_0000_0000,
            b < 32,
            carry < (1u64 << b),
    ;
}

/// Multiplying by `w(k)` adds `k` limbs.
proof fn lemma_count_times_weight(x: nat, k: nat)
    requires
        x > 0,
    ensures
        limb_count(x * weight(k)) == limb_count(x) + k,
{
    lemma_limb_count_lower(x);
    let n = limb_count(x);
    lemma_weight_adds((n - 1) as nat, k);
    lemma_weight_adds(n, k);
    let y = x * weight(k);
    lemma_weight_pos(k);
    assert(weight((n - 1) as nat) * weight(k) <= y < weight(n) * weight(k)) by (nonlinear_arith)
        requires
            weight((n - 1) as nat) <= x < weight(n),
            y == x * weight(k),
            weight(k) > 0,
    ;
    lemma_weight_pos(k);
    assert((n - 1) + k == (n + k - 1) as nat);
    lemma_limb_count_range(y, n + k);
}

/// The limb count of a normalized value shifted left by `b < 32` bits.
proof fn lemma_shl_count(s: Seq<u32>, b: nat)
    requires
        normalized(s),
        s.len() > 0,
        0 < b < 32,
    ensures
        limb_count(seq_value(s) * pow2(b)) == s.len() + if (s[s.len() - 1] as nat) / pow2(
            (32 - b) as nat,
        ) != 0 {
            1int
        } else {
            0int
        },
{
    let n = s.len();
    let m = (n - 1) as nat;
    let t = s[m as int] as nat;
    let v = seq_value(s);
    lemma_value_split(s, m);
    let top = s.subrange(m as int, n as int);
    lemma_value_single(top);
    let low = prefix_value(s, m);
    lemma_prefix_bound(s, m);
    let w = weight(m);
    lemma_weight_succ(m);
    lemma_pow2_adds(b, (32 - b) as nat);
    lemma2_to64();
    let p = pow2(b);
    let q = pow2((32 - b) as nat);
    assert(p * q == limb_base());
    lemma_pow2_pos(b);
    lemma_pow2_pos((32 - b) as nat);
    lemma_normalized_lower(s);
    assert(v * p >= w) by (nonlinear_arith)
        requires
            v >= w,
            p >= 1,
    ;
    if t / q != 0 {
        assert(t >= q) by (nonlinear_arith)
            requires
                t / q != 0,
                q > 0,
        ;
        assert(v * p >= w * limb_base()) by (nonlinear_arith)
            requires
                v == low + w * t,
                t >= q,
                p * q == limb_base(),
                p > 0,
        ;
        assert(v * p < w * limb_base() * limb_base()) by (nonlinear_arith)
            requires
                v == low + w * t,
                low < w,
                t < limb_base(),
                p <= limb_base(),
                p > 0,
        ;
        lemma_weight_succ(n);
        lemma_limb_count_range(v * p, n + 1);
    } else {
        assert(t < q) by (nonlinear_arith)
            requires
                t / q == 0,
                q > 0,
        ;
        assert(v * p < w * limb_base()) by (nonlinear_arith)
            requires
                v == low + w * t,
                low < w,
                t + 1 <= q,
                p * q == limb_base(),
                p > 0,
        ;
        lemma_limb_count_range(v * p, n);
    }
}

impl BigUint {
    /// The value shifted left by `bits` bits: `self * 2^bits`.
    pub fn shl_bits(&self, bits: usize) -> (r: Result<Self, BigintError>)
        ensures
            self@ == 0 ==> (r matches Ok(v) && v@ == 0),
            self@ != 0 ==> produces(r, self@ * pow2(bits as nat)),
    {
        proof {
            use_type_invariant(self);
            self.lemma_shape();
        }
        if self.is_zero() {
            return Ok(Self::zero());
        }
        let ghost s = self.limbs@;
        let ghost n = s.len();
        let limb_shift = bits / 32;
        let bit_shift = bits % 32;
        let top = self.limbs[self.limbs.len() - 1];
        let extra: usize = if bit_shift != 0 && top >> (32 - bit_shift) as u32 != 0 {
            1
        } else {
            0
        };
        proof {
            let k = limb_shift as nat;
            let b = bit_shift as nat;
            lemma_pow2_adds(32 * k, b);
            assert(bits == 32 * k + b);
            let v = self@;
            lemma_pow2_pos(b);
            if b == 0 {
                lemma2_to64();
                lemma_count_times_weight(v, k);
            } else {
                lemma_u32_shr_is_div(top, (32 - bit_shift) as u32);
                lemma_shl_count(s, b);
                lemma_count_times_weight(v * pow2(b), k);
            }
            assert(v * pow2(bits as nat) == v * pow2(b) * weight(k)) by (nonlinear_arith)
                requires
                    pow2(bits as nat) == weight(k) * pow2(b),
            ;
            assert(limb_count(v * pow2(bits as nat)) == n + k + extra);
        }
        let required = match self.limbs.len().checked_add(limb_shift) {
            Some(count) => match count.checked_add(extra) {
                Some(count) => count,
                None => return Err(BigintError::CapacityOverflow),
            },
            None => return Err(BigintError::CapacityOverflow),
        };
        checked_limb_count(required)?;
        let mut limbs: Vec<u32> = Vec::new();
        reserve_limbs(&mut limbs, required)?;
        let mut zeros: usize = 0;
        proof {
            lemma_weight_zero();
        }
        while zeros < limb_shift
            invariant
                zeros <= limb_shift,
                limbs@.len() == zeros,
                seq_value(limbs@) == 0,
            decreases limb_shift - zeros,
        {
            proof {
                lemma_value_push(limbs@, 0);
                assert(0 * weight(limbs@.len()) == 0);
            }
            limbs.push(0);
            zeros = zeros + 1;
        }
        let ghost k = limb_shift as nat;
        let shift = bit_shift as u64;
        let ghost p = pow2(bit_shift as nat);
        proof {
            lemma_u64_pow2_no_overflow(bit_shift as nat);
            lemma_u64_shl_is_mul(1, shift);
        }
        let mut carry: u64 = 0;
        let mut index: usize = 0;
        proof {
            assert(weight(k) * prefix_value(s, 0) * p == 0) by (nonlinear_arith)
                requires
                    prefix_value(s, 0) == 0,
            ;
        }
        while index < self.limbs.len()
            invariant
                s == self.limbs@,
                n == s.len(),
                index <= n,
                k == limb_shift,
                shift < 32,
                p == pow2(shift as nat),
                (1u64 << shift) == p,
                carry < p,
                limbs@.len() == k + index,
                seq_value(limbs@) + carry * weight((k + index) as nat) == weight(k) * prefix_value(
                    s,
                    index as nat,
                ) * p,
            decreases n - index,
        {
            let limb = self.limbs[index] as u64;
            let value = (limb << shift) | carry;
            let digit = #[verifier::truncate] (value as u32);
            let next = value >> 32;
            proof {
                lemma_shl_digit(limb, shift, carry);
                assert(digit as nat + next * 0x1_0000_0000 == value) by (bit_vector)
                    requires
                        digit == value as u32,
                        next == value >> 32,
                ;
                let i = index as nat;
                let wi = weight(i);
                let wki = weight(k + i);
                lemma_weight_adds(k, i);
                lemma_weight_succ(k + i);
                lemma_value_push(limbs@, digit);
                assert(prefix_value(s, i + 1) == prefix_value(s, i) + limb * wi);
                let old = seq_value(limbs@);
                let pre = prefix_value(s, i);
                assert(digit * wki + next * (wki * limb_base()) == value * wki) by (nonlinear_arith)
                    requires
                        digit + next * limb_base() == value,
                ;
                assert(value * wki == limb * p * wki + carry * wki) by (nonlinear_arith)
                    requires
                        value == limb * p + carry,
                ;
                assert(limb * p * wki == weight(k) * (limb * wi) * p) by (nonlinear_arith)
                    requires
                        wki == weight(k) * wi,
                ;
                assert(weight(k) * pre * p + weight(k) * (limb * wi) * p == weight(k) * (pre
                    + limb * wi) * p) by (nonlinear_arith);
            }
            limbs.push(digit);
            carry = next;
            index = index + 1;
        }
        proof {
            assert((1u64 << shift) <= 0x8000_0000) by (bit_vector)
                requires
                    shift < 32,
            ;
        }
        if carry != 0 {
            proof {
                lemma_value_push(limbs@, carry as u32);
            }
            limbs.push(carry as u32);
        }
        proof {
            lemma_trimmed(limbs@);
            lemma_normalized_count(trimmed(limbs@));
            assert(weight(k) * self@ * p == self@ * pow2(bits as nat)) by (nonlinear_arith)
                requires
                    pow2(bits as nat) == weight(k) * p,
            ;
        }
        Self::from_limbs_le(limbs)
    }
}

/// Limb `j` of `t` shifted right by `b < 32` bits, taking its high bits from limb `j + 1`.
pub open spec fn shr_limb(t: Seq<u32>, j: int, b: u32) -> u32 {
    let y: u32 = if j + 1 < t.len() {
        t[j + 1]
    } else {
        0
    };
    if b == 0 {
        t[j]
    } else {
        (t[j] >> b) | (y << ((32 - b) as u32))
    }
}

/// The limbs of `t` shifted right by `b < 32` bits.
pub open spec fn shr_limbs(t: Seq<u32>, b: u32) -> Seq<u32> {
    Seq::new(t.len(), |j: int| shr_limb(t, j, b))
}

/// The pieces of one right-shifted limb.
proof fn lemma_shr_pieces(x: u32, y: u32, b: u32)
    requires
        0 < b < 32,
    ensures
        ((x >> b) | (y << ((32 - b) as u32))) as nat == (x as nat) / pow2(b as nat) + ((y as nat)
            % pow2(b as nat)) * pow2((32 - b) as nat),
        x as nat == ((x as nat) / pow2(b as nat)) * pow2(b as nat) + (x as nat) % pow2(b as nat),
        pow2(b as nat) * pow2((32 - b) as nat) == limb_base(),
{
    let c = (32 - b) as u32;
    lemma_u32_pow2_no_overflow(b as nat);
    lemma_u32_shl_is_mul(1, b);
    let m: u32 = ((1u32 << b) - 1) as u32;
    assert(m == (1u32 << b) - 1);
    assert(((x >> b) | (y << c)) == (x >> b) + ((y & m) << c)) by (bit_vector)
        requires
            0 < b < 32,
            c == 32 - b,
            m == (1u32 << b) - 1,
    ;
    assert((y & m) < (1u32 << b)) by (bit_vector)
        requires
            0 < b < 32,
            m == (1u32 << b) - 1,
    ;
    lemma_u32_pow2_no_overflow(b as nat);
    lemma_u32_pow2_no_overflow(c as nat);
    lemma_u32_shl_is_mul(1, b);
    lemma_u32_shl_is_mul(1, c);
    lemma_u32_shr_is_div(x, b);
    lemma_pow2_adds(b as nat, c as nat);
    lemma2_to64();
    lemma_pow2_pos(b as nat);
    let p = pow2(b as nat);
    assert(low_bits_mask(b as nat) == p - 1);
    assert(m == p - 1);
    lemma_u32_low_bits_mask_is_mod(y, b as nat);
    assert((y & m) as nat == (y as nat) % p);
    assert(((y & m) as nat) * pow2(c as nat) < 0x1_0000_0000) by (nonlinear_arith)
        requires
            ((y & m) as nat) < p,
            p * pow2(c as nat) == 0x1_0000_0000,
    ;
    lemma_u32_shl_is_mul(y & m, c);
    assert(x as nat == ((x as nat) / p) * p + (x as nat) % p) by (nonlinear_arith)
        requires
            p > 0,
    ;
}

/// The running form of `lemma_shr_limbs` over the lowest `j` limbs.
proof fn lemma_shr_prefix(t: Seq<u32>, b: u32, j: nat)
    requires
        0 < b < 32,
        j <= t.len(),
    ensures
        pow2(b as nat) * prefix_value(shr_limbs(t, b), j) + (if t.len() > 0 {
            (t[0] as nat) % pow2(b as nat)
        } else {
            0
        }) == prefix_value(t, j) + (limb(t, j as int) % pow2(b as nat)) * weight(j),
    decreases j,
{
    let out = shr_limbs(t, b);
    let p = pow2(b as nat);
    let q = pow2((32 - b) as nat);
    lemma_pow2_pos(b as nat);
    let lo0: nat = if t.len() > 0 {
        (t[0] as nat) % p
    } else {
        0
    };
    if j == 0 {
        lemma_weight_zero();
        assert(p * prefix_value(out, 0) == 0) by (nonlinear_arith)
            requires
                prefix_value(out, 0) == 0,
        ;
        let l = limb(t, 0);
        let w0 = weight(0);
        let r = l % p;
        assert(w0 == 1);
        assert(r * w0 == r);
        if t.len() == 0 {
            assert(l == 0);
            assert(0nat % p == 0) by (nonlinear_arith)
                requires
                    p > 0,
            ;
        }
    } else {
        let i = (j - 1) as nat;
        lemma_shr_prefix(t, b, i);
        let xu = t[i as int];
        let yu: u32 = if i + 1 < t.len() {
            t[(i + 1) as int]
        } else {
            0
        };
        lemma_shr_pieces(xu, yu, b);
        assert(limb(t, j as int) == yu);
        let x = xu as nat;
        let y = yu as nat;
        assert(limb(t, i as int) == x);
        let w = weight(i);
        lemma_weight_succ(i);
        let o = out[i as int] as nat;
        assert(o == x / p + (y % p) * q);
        let po = prefix_value(out, i);
        let pt = prefix_value(t, i);
        assert(prefix_value(out, j) == po + o * w);
        assert(prefix_value(t, j) == pt + x * w);
        assert(p * (po + o * w) + lo0 == pt + x * w + (y % p) * (w * limb_base()))
            by (nonlinear_arith)
            requires
                p * po + lo0 == pt + (x % p) * w,
                o == x / p + (y % p) * q,
                x == (x / p) * p + x % p,
                p * q == limb_base(),
        ;
    }
}

/// Shifting limbs right by `b < 32` bits divides their value by `2^b`.
pub proof fn lemma_shr_limbs(t: Seq<u32>, b: u32)
    requires
        b < 32,
    ensures
        seq_value(shr_limbs(t, b)) == seq_value(t) / pow2(b as nat),
        normalized(t) && t.len() > 0 && t[t.len() - 1] >> b == 0 ==> shr_limbs(t, b)[t.len()
            - 1] == 0,
{
    let out = shr_limbs(t, b);
    let p = pow2(b as nat);
    lemma_pow2_pos(b as nat);
    if b == 0 {
        lemma2_to64();
        assert(out =~= t);
    } else {
        let q = pow2((32 - b) as nat);
        let lo0: nat = if t.len() > 0 {
            (t[0] as nat) % p
        } else {
            0
        };
        lemma_shr_prefix(t, b, t.len());
        assert(limb(t, t.len() as int) == 0);
        assert((limb(t, t.len() as int) % p) * weight(t.len()) == 0) by (nonlinear_arith)
            requires
                limb(t, t.len() as int) == 0,
                p > 0,
        ;
        let v = seq_value(out);
        assert(out.len() == t.len());
        if t.len() > 0 {
            assert(lo0 < p) by (nonlinear_arith)
                requires
                    lo0 == (t[0] as nat) % p,
                    p > 0,
            ;
        }
        assert(v == seq_value(t) / p) by (nonlinear_arith)
            requires
                p * v + lo0 == seq_value(t),
                lo0 < p,
        ;
    }
    if normalized(t) && t.len() > 0 && b == 0 {
        let x = t[t.len() - 1];
        assert(x >> 0u32 == x) by (bit_vector);
    }
    if normalized(t) && t.len() > 0 && t[t.len() - 1] >> b == 0 && b != 0 {
        let x = t[t.len() - 1];
        let zero: u32 = 0;
        let c = (32 - b) as u32;
        assert(((x >> b) | (zero << c)) == 0) by (bit_vector)
            requires
                x >> b == 0,
                zero == 0,
        ;
        assert(shr_limbs(t, b)[t.len() - 1] == ((x >> b) | (zero << c)));
    }
}

/// What a right shift by `bits` reports when its limb allocation fails.
pub open spec fn shr_requested(value: nat, bits: nat) -> nat {
    (limb_count(value) - bits / 32) as nat
}

impl BigUint {
    /// The value shifted right by `bits` bits: `self / 2^bits`, rounded down.
    pub fn shr_bits(&self, bits: usize) -> (r: Result<Self, BigintError>)
        ensures
            limb_count(self@) <= bits / 32 ==> (r matches Ok(v) && v@ == 0),
            match r {
                Ok(v) => v@ == self@ / pow2(bits as nat),
                Err(e) => e == BigintError::AllocationFailure {
                    requested_limbs: shr_requested(self@, bits as nat) as usize,
                },
            },
    {
        proof {
            use_type_invariant(self);
            self.lemma_shape();
        }
        let ghost s = self.limbs@;
        let limb_shift = bits / 32;
        let bit_shift = (bits % 32) as u32;
        let ghost k = limb_shift as nat;
        let ghost n = s.len();
        proof {
            lemma_pow2_adds(32 * k, bit_shift as nat);
            lemma_pow2_pos(32 * k);
            lemma_pow2_pos(bit_shift as nat);
            lemma_div_denominator(self@ as int, weight(k) as int, pow2(bit_shift as nat) as int);
        }
        if limb_shift >= self.limbs.len() {
            proof {
                lemma_value_bound(s);
                lemma_weight_mono(n, k);
                assert(self@ / weight(k) == 0) by (nonlinear_arith)
                    requires
                        self@ < weight(k),
                ;
                assert(0nat / pow2(bit_shift as nat) == 0) by (nonlinear_arith)
                    requires
                        pow2(bit_shift as nat) > 0,
                ;
            }
            return Ok(Self::zero());
        }
        let required = self.limbs.len() - limb_shift;
        let mut limbs: Vec<u32> = Vec::new();
        reserve_limbs(&mut limbs, required)?;
        let ghost t = s.subrange(k as int, n as int);
        let ghost out = shr_limbs(t, bit_shift);
        let mut index = limb_shift;
        while index < self.limbs.len()
            invariant
                s == self.limbs@,
                n == s.len(),
                k == limb_shift,
                k <= index <= n,
                t == s.subrange(k as int, n as int),
                out == shr_limbs(t, bit_shift),
                bit_shift < 32,
                limbs@ == out.subrange(0, index - k),
            decreases n - index,
        {
            let x = self.limbs[index];
            let value = if bit_shift == 0 {
                x
            } else {
                let y = limb_at(self.limbs.as_slice(), index + 1);
                (x >> bit_shift) | (y << (32 - bit_shift))
            };
            proof {
                assert(out[index - k] == value);
            }
            limbs.push(value);
            index = index + 1;
            proof {
                assert(limbs@ =~= out.subrange(0, index - k));
            }
        }
        proof {
            assert(limbs@ =~= out);
            lemma_shr_limbs(t, bit_shift);
            lemma_value_split(s, k);
            lemma_prefix_bound(s, k);
            let w = weight(k);
            assert(self@ / w == seq_value(t)) by (nonlinear_arith)
                requires
                    self@ == prefix_value(s, k) + w * seq_value(t),
                    prefix_value(s, k) < w,
            ;
            lemma_trimmed(limbs@);
            lemma_normalized_count(trimmed(limbs@));
        }
        Self::from_limbs_le(limbs)
    }
}

/// The number of binary digits of `v`.
pub open spec fn bit_count(v: nat) -> nat
    decreases v,
{
    if v == 0 {
        0
    } else {
        1 + bit_count(v / 2)
    }
}

/// Bit `index` of `v`.
pub open spec fn bit_of(v: nat, index: nat) -> bool {
    (v / pow2(index)) % 2 == 1
}

/// The bit count of `v` is `n` exactly when `v` lies in `[2^(n-1), 2^n)`.
pub proof fn lemma_bit_count_range(v: nat, n: nat)
    requires
        if n == 0 {
            v == 0
        } else {
            pow2((n - 1) as nat) <= v < pow2(n)
        },
    ensures
        bit_count(v) == n,
    decreases n,
{
    if n > 0 {
        let m = (n - 1) as nat;
        lemma2_to64();
        lemma_pow2_pos(m);
        assert(v > 0);
        if m == 0 {
            assert(v == 1);
            assert(bit_count(0) == 0);
            assert(bit_count(1) == 1 + bit_count(0));
        } else {
            let k = (m - 1) as nat;
            vstd::arithmetic::power2::lemma_pow2_unfold(m);
            vstd::arithmetic::power2::lemma_pow2_unfold(n);
            let q = v / 2;
            assert(pow2(k) <= q < pow2(m)) by (nonlinear_arith)
                requires
                    pow2(m) == 2 * pow2(k),
                    pow2(n) == 2 * pow2(m),
                    pow2(m) <= v < pow2(n),
                    q == v / 2,
            ;
            lemma_bit_count_range(q, m);
        }
    }
}

/// A positive value lies between the powers of two around its bit count.
pub proof fn lemma_bit_count_bounds(v: nat)
    requires
        v > 0,
    ensures
        bit_count(v) >= 1,
        pow2((bit_count(v) - 1) as nat) <= v < pow2(bit_count(v)),
    decreases v,
{
    lemma2_to64();
    let q = v / 2;
    if q == 0 {
        assert(v == 1);
        assert(bit_count(0) == 0);
    } else {
        lemma_bit_count_bounds(q);
        let c = bit_count(q);
        vstd::arithmetic::power2::lemma_pow2_unfold(c);
        vstd::arithmetic::power2::lemma_pow2_unfold(c + 1);
        assert(pow2(c) <= v < pow2(c + 1)) by (nonlinear_arith)
            requires
                pow2((c - 1) as nat) <= q < pow2(c),
                q == v / 2,
                pow2(c) == 2 * pow2((c - 1) as nat),
                pow2(c + 1) == 2 * pow2(c),
        ;
    }
}

impl BigUint {
    /// The value shifted right by `bits` bits, reusing these limbs.
    pub(crate) fn into_shr_bits(self, bits: usize) -> (r: Self)
        ensures
            r@ == self@ / pow2(bits as nat),
    {
        proof {
            use_type_invariant(&self);
        }
        let ghost s = self.limbs@;
        let ghost n = s.len();
        let BigUint { limbs } = self;
        let mut limbs = limbs;
        let limb_shift = bits / 32;
        let bit_shift = (bits % 32) as u32;
        let ghost k = limb_shift as nat;
        proof {
            lemma_pow2_adds(32 * k, bit_shift as nat);
            lemma_pow2_pos(32 * k);
            lemma_pow2_pos(bit_shift as nat);
            lemma_div_denominator(seq_value(s) as int, weight(k) as int, pow2(bit_shift as nat) as int);
        }
        if limb_shift >= limbs.len() {
            proof {
                lemma_value_bound(s);
                lemma_weight_mono(n, k);
                assert(seq_value(s) / weight(k) == 0) by (nonlinear_arith)
                    requires
                        seq_value(s) < weight(k),
                ;
                assert(0nat / pow2(bit_shift as nat) == 0) by (nonlinear_arith)
                    requires
                        pow2(bit_shift as nat) > 0,
                ;
            }
            return Self::zero();
        }
        let m = limbs.len() - limb_shift;
        let ghost t = s.subrange(k as int, n as int);
        let ghost out = shr_limbs(t, bit_shift);
        let mut index: usize = 0;
        while index < m
            invariant
                n == s.len(),
                k == limb_shift,
                m == n - k,
                index <= m,
                t == s.subrange(k as int, n as int),
                out == shr_limbs(t, bit_shift),
                bit_shift < 32,
                limbs@.len() == n,
                limbs.len() == n,
                forall|j: int| 0 <= j < index ==> limbs@[j] == out[j],
                forall|j: int| index <= j < n ==> limbs@[j] == s[j],
            decreases m - index,
        {
            let x = limbs[index + limb_shift];
            let value = if bit_shift == 0 {
                x
            } else {
                let y = if index + limb_shift + 1 < limbs.len() {
                    limbs[index + limb_shift + 1]
                } else {
                    0
                };
                (x >> bit_shift) | (y << (32 - bit_shift))
            };
            proof {
                assert(out[index as int] == value);
            }
            limbs.set(index, value);
            index = index + 1;
        }
        limbs.truncate(m);
        proof {
            assert(limbs@ =~= out);
            lemma_shr_limbs(t, bit_shift);
            lemma_value_split(s, k);
            lemma_prefix_bound(s, k);
            let w = weight(k);
            assert(seq_value(s) / w == seq_value(t)) by (nonlinear_arith)
                requires
                    seq_value(s) == prefix_value(s, k) + w * seq_value(t),
                    prefix_value(s, k) < w,
            ;
            lemma_trimmed(limbs@);
        }
        let ghost full = limbs@;
        while limbs.len() > 0 && limbs[limbs.len() - 1] == 0
            invariant
                trimmed(limbs@) == trimmed(full),
                limbs@.len() <= full.len(),
            decreases limbs.len(),
        {
            let ghost before = limbs@;
            limbs.pop();
            proof {
                assert(limbs@ == before.drop_last());
            }
        }
        proof {
            lemma_trimmed(limbs@);
            assert(trimmed(limbs@) == limbs@);
        }
        BigUint { limbs }
    }

    /// The number of binary digits of the value.
    pub fn bit_len(&self) -> (r: usize)
        ensures
            r == bit_count(self@),
    {
        proof {
            use_type_invariant(self);
            self.lemma_shape();
        }
        if self.limbs.len() == 0 {
            return 0;
        }
        let high = self.limbs[self.limbs.len() - 1];
        proof {
            let h = high as nat;
            if h > 0 {
                lemma_bit_count_bounds(h);
                lemma2_to64();
                if bit_count(h) > 32 {
                    vstd::arithmetic::power2::lemma_pow2_strictly_increases(32, (bit_count(h) - 1) as nat);
                }
            }
        }
        let mut rest = high;
        let mut high_bits: usize = 0;
        while rest > 0
            invariant
                high_bits + bit_count(rest as nat) == bit_count(high as nat),
                high_bits <= 32,
                bit_count(rest as nat) + high_bits <= 32,
            decreases rest,
        {
            proof {
                assert(bit_count(rest as nat) == 1 + bit_count((rest / 2) as nat));
            }
            rest = rest / 2;
            high_bits = high_bits + 1;
        }
        proof {
            let s = self.limbs@;
            let m = (s.len() - 1) as nat;
            let h = high as nat;
            lemma_bit_count_bounds(h);
            lemma_value_split(s, m);
            let top = s.subrange(m as int, s.len() as int);
            lemma_value_single(top);
            lemma_prefix_bound(s, m);
            let low = prefix_value(s, m);
            let w = weight(m);
            let c = bit_count(h);
            lemma_pow2_adds(32 * m, (c - 1) as nat);
            lemma_pow2_adds(32 * m, c);
            assert(w * pow2((c - 1) as nat) <= self@ < w * pow2(c)) by (nonlinear_arith)
                requires
                    self@ == low + w * h,
                    low < w,
                    pow2((c - 1) as nat) <= h < pow2(c),
            ;
            assert(32 * m + (c - 1) == (32 * m + c - 1) as nat);
            lemma_bit_count_range(self@, 32 * m + c);
        }
        (self.limbs.len() - 1) * 32 + high_bits
    }
}

/// Reading bit `b < 32` of a digit reads the same bit of the whole quotient.
proof fn lemma_bit_of_digit(q: nat, b: nat)
    requires
        b < 32,
    ensures
        ((q % limb_base()) / pow2(b)) % 2 == (q / pow2(b)) % 2,
{
    let x = q % limb_base();
    let t = q / limb_base();
    let p = pow2(b);
    let r = pow2((31 - b) as nat);
    lemma_pow2_adds(b, (31 - b) as nat);
    lemma2_to64();
    lemma_pow2_pos(b);
    assert(p * r * 2 == limb_base());
    assert(q == x + limb_base() * t) by (nonlinear_arith)
        requires
            x == q % limb_base(),
            t == q / limb_base(),
            limb_base() > 0,
    ;
    assert(q / p == x / p + 2 * (r * t)) by (nonlinear_arith)
        requires
            q == x + limb_base() * t,
            p * r * 2 == limb_base(),
            p > 0,
    ;
    vstd::arithmetic::div_mod::lemma_mod_multiples_vanish((r * t) as int, (x / p) as int, 2);
}

impl BigUint {
    /// The value as a `usize`, when it fits, from its bits.
    pub(crate) fn to_usize_within(&self) -> (r: usize)
        requires
            self@ <= usize::MAX,
        ensures
            r == self@,
    {
        let ghost v = self@;
        let bits = self.bit_len();
        let mut count: usize = 0;
        let mut place: usize = 1;
        let mut bit: usize = 0;
        proof {
            if v > 0 {
                lemma_bit_count_bounds(v);
            }
            vstd::arithmetic::power2::lemma2_to64();
        }
        while bit < bits
            invariant
                v == self@,
                v <= usize::MAX,
                bits == bit_count(v),
                v > 0 ==> vstd::arithmetic::power2::pow2((bits - 1) as nat) <= v,
                bit <= bits,
                bit < bits ==> place == vstd::arithmetic::power2::pow2(bit as nat),
                count == v % vstd::arithmetic::power2::pow2(bit as nat),
            decreases bits - bit,
        {
            let set = self.bit(bit);
            proof {
                let p = vstd::arithmetic::power2::pow2(bit as nat);
                vstd::arithmetic::power2::lemma_pow2_pos(bit as nat);
                vstd::arithmetic::power2::lemma_pow2_unfold((bit + 1) as nat);
                vstd::arithmetic::div_mod::lemma_mod_breakdown(v as int, p as int, 2);
                assert(vstd::arithmetic::power2::pow2((bit + 1) as nat) == p * 2);
                assert(count + (if set { p } else { 0 }) == v % (p * 2)) by {
                    assert(set == ((v / p) % 2 == 1));
                    assert(v % (p * 2) == p * ((v / p) % 2) + v % p);
                    assert((v / p) % 2 == 0 || (v / p) % 2 == 1);
                }
                assert(v % (p * 2) <= v) by {
                    vstd::arithmetic::div_mod::lemma_mod_decreases(v, p * 2);
                }
            }
            if set {
                count = count + place;
            }
            if bit + 1 < bits {
                proof {
                    vstd::arithmetic::power2::lemma_pow2_unfold((bit + 1) as nat);
                    if bit + 1 < bits - 1 {
                        vstd::arithmetic::power2::lemma_pow2_strictly_increases(
                            (bit + 1) as nat,
                            (bits - 1) as nat,
                        );
                    }
                }
                place = place * 2;
            }
            bit = bit + 1;
        }
        proof {
            if v > 0 {
                vstd::arithmetic::div_mod::lemma_small_mod(v, vstd::arithmetic::power2::pow2(bits as nat));
            } else {
                assert(bits == 0);
                assert(vstd::arithmetic::power2::pow2(0) == 1) by {
                    vstd::arithmetic::power2::lemma2_to64();
                }
            }
        }
        count
    }
}

impl BigUint {
    /// Bit `index` of the value.
    pub fn bit(&self, index: usize) -> (r: bool)
        ensures
            r == bit_of(self@, index as nat),
    {
        proof {
            use_type_invariant(self);
            self.lemma_shape();
        }
        let limb_index = index / 32;
        let shift = (index % 32) as u32;
        let ghost l = limb_index as nat;
        let ghost b = shift as nat;
        let ghost v = self@;
        proof {
            lemma_pow2_adds(32 * l, b);
            lemma_pow2_pos(32 * l);
            lemma_pow2_pos(b);
            lemma_div_denominator(v as int, weight(l) as int, pow2(b) as int);
        }
        if limb_index < self.limbs.len() {
            let x = self.limbs[limb_index];
            let r = x & (1u32 << shift) != 0;
            proof {
                lemma_limb_digit(self.limbs@, l);
                lemma_bit_of_digit(v / weight(l), b);
                lemma_u32_shr_is_div(x, shift);
                assert((x & (1u32 << shift) != 0) == (((x >> shift) % 2) == 1)) by (bit_vector)
                    requires
                        shift < 32,
                ;
            }
            r
        } else {
            proof {
                lemma_value_bound(self.limbs@);
                lemma_weight_mono(self.limbs@.len(), l);
                assert(32 * l <= index);
                if b > 0 {
                    vstd::arithmetic::power2::lemma_pow2_strictly_increases(32 * l, index as nat);
                }
                assert(v / pow2(index as nat) == 0) by (nonlinear_arith)
                    requires
                        v < pow2(index as nat),
                ;
            }
            false
        }
    }
}

/// A value below `w(n)` needs at most `n` limbs.
proof fn lemma_count_below(x: nat, n: nat)
    requires
        x < weight(n),
    ensures
        limb_count(x) <= n,
{
    if x > 0 {
        lemma_limb_count_lower(x);
        if limb_count(x) > n {
            lemma_weight_mono(n, (limb_count(x) - 1) as nat);
        }
    }
}

/// A value below `w(n)` has at most `32 n` bits.
proof fn lemma_bits_below(x: nat, n: nat)
    requires
        x < weight(n),
    ensures
        bit_count(x) <= 32 * n,
{
    if x > 0 {
        lemma_bit_count_bounds(x);
        if bit_count(x) > 32 * n {
            vstd::arithmetic::power2::lemma_pow2_strictly_increases(32 * n, (bit_count(x) - 1) as nat);
            if bit_count(x) - 1 == 32 * n {
            }
        }
    }
}

/// Setting a clear bit `p` of the limbs adds `2^p` to their value.
proof fn lemma_set_clear_bit(s: Seq<u32>, p: nat, x: u32, y: u32)
    requires
        p / 32 < s.len(),
        x == s[(p / 32) as int],
        (seq_value(s) / pow2(p)) % 2 == 0,
        y == x | (1u32 << ((p % 32) as u32)),
    ensures
        seq_value(s.update((p / 32) as int, y)) == seq_value(s) + pow2(p),
{
    let l = p / 32;
    let b = p % 32;
    let bu = b as u32;
    let v = seq_value(s);
    lemma_pow2_adds(32 * l, b);
    lemma_pow2_pos(32 * l);
    lemma_pow2_pos(b);
    assert(p == 32 * l + b);
    lemma_div_denominator(v as int, weight(l) as int, pow2(b) as int);
    lemma_limb_digit(s, l);
    lemma_bit_of_digit(v / weight(l), b);
    lemma_u32_shr_is_div(x, bu);
    assert(((x >> bu) % 2) == 0);
    assert((x | (1u32 << bu)) == x + (1u32 << bu)) by (bit_vector)
        requires
            bu < 32,
            (x >> bu) % 2 == 0,
    ;
    lemma_u32_pow2_no_overflow(b);
    lemma_u32_shl_is_mul(1, bu);
    lemma_value_update(s, l as int, y);
    assert(y == x + pow2(b));
    assert((x + pow2(b)) * weight(l) == x * weight(l) + pow2(p)) by (nonlinear_arith)
        requires
            pow2(p) == weight(l) * pow2(b),
    ;
}

/// Clearing the bits below `p + 1` clears those below `p`, and bit `p`.
proof fn lemma_low_bits_clear(q: nat, p: nat)
    requires
        q % pow2(p + 1) == 0,
    ensures
        q % pow2(p) == 0,
        (q / pow2(p)) % 2 == 0,
        (q + pow2(p)) % pow2(p) == 0,
{
    lemma_pow2_pos(p);
    lemma_pow2_pos(p + 1);
    vstd::arithmetic::power2::lemma_pow2_unfold(p + 1);
    let k = q / pow2(p + 1);
    vstd::arithmetic::div_mod::lemma_fundamental_div_mod(q as int, pow2(p + 1) as int);
    assert(q == pow2(p) * (2 * k)) by (nonlinear_arith)
        requires
            q == pow2(p + 1) * k + q % pow2(p + 1),
            q % pow2(p + 1) == 0,
            pow2(p + 1) == 2 * pow2(p),
    ;
    vstd::arithmetic::div_mod::lemma_mod_multiples_basic((2 * k) as int, pow2(p) as int);
    vstd::arithmetic::div_mod::lemma_div_multiples_vanish((2 * k) as int, pow2(p) as int);
    vstd::arithmetic::div_mod::lemma_mod_multiples_basic(k as int, 2);
    vstd::arithmetic::div_mod::lemma_mod_multiples_basic((2 * k + 1) as int, pow2(p) as int);
    assert(q + pow2(p) == (2 * k + 1) * pow2(p)) by (nonlinear_arith)
        requires
            q == pow2(p) * (2 * k),
    ;
    assert(pow2(p) * (2 * k) == (2 * k) * pow2(p)) by (nonlinear_arith);
    assert(k * 2 == 2 * k);
}

impl BigUint {
    /// Quotient and remainder of truncating division, by binary long division.
    pub fn div_rem(&self, divisor: &Self) -> (r: Result<(Self, Self), BigintError>)
        ensures
            divisor@ == 0 ==> r == Err::<(BigUint, BigUint), BigintError>(
                BigintError::DivisionByZero,
            ),
            divisor@ != 0 ==> match r {
                Ok((quotient, remainder)) => quotient@ == self@ / divisor@ && remainder@ == self@
                    % divisor@,
                Err(e) => e is AllocationFailure,
            },
    {
        proof {
            use_type_invariant(self);
            use_type_invariant(divisor);
            self.lemma_shape();
            divisor.lemma_shape();
        }
        if divisor.is_zero() {
            return Err(BigintError::DivisionByZero);
        }
        let ghost v = self@;
        let ghost d = divisor@;
        let ghost n = self.limbs_view().len();
        if self.less_than(divisor) {
            proof {
                assert(v / d == 0 && v % d == v) by (nonlinear_arith)
                    requires
                        v < d,
                ;
            }
            let remainder = self.try_clone()?;
            return Ok((Self::zero(), remainder));
        }
        let self_bits = self.bit_len();
        let divisor_bits = divisor.bit_len();
        proof {
            lemma_value_bound(self.limbs_view());
            lemma_bits_below(v, n);
            lemma_bit_count_bounds(v);
            lemma_bit_count_bounds(d);
            if self_bits < divisor_bits {
                vstd::arithmetic::power2::lemma_pow2_strictly_increases(self_bits as nat, (divisor_bits - 1) as nat);
                if self_bits == divisor_bits - 1 {
                }
            }
        }
        let shift = self_bits - divisor_bits;
        if shift == usize::MAX {
            return Err(BigintError::CapacityOverflow);
        }
        let quotient_required = shift / 32 + 1;
        let mut quotient_limbs: Vec<u32> = Vec::new();
        reserve_limbs(&mut quotient_limbs, quotient_required)?;
        let mut zeros: usize = 0;
        proof {
            lemma_weight_zero();
        }
        while zeros < quotient_required
            invariant
                zeros <= quotient_required,
                quotient_limbs@.len() == zeros,
                seq_value(quotient_limbs@) == 0,
            decreases quotient_required - zeros,
        {
            proof {
                lemma_value_push(quotient_limbs@, 0);
                assert(0 * weight(quotient_limbs@.len()) == 0);
            }
            quotient_limbs.push(0);
            zeros = zeros + 1;
        }
        let mut remainder = self.try_clone()?;
        let ghost bs = (shift + 1) as nat;
        proof {
            // the shifted divisor stays below the dividend's limb weight
            let bd = divisor_bits as nat;
            lemma_pow2_adds(bd, shift as nat);
            lemma_pow2_pos(shift as nat);
            assert(d * pow2(shift as nat) < pow2(self_bits as nat)) by (nonlinear_arith)
                requires
                    d < pow2(bd),
                    pow2(self_bits as nat) == pow2(bd) * pow2(shift as nat),
                    pow2(shift as nat) > 0,
            ;
            lemma_pow2_pos(shift as nat);
            if self_bits < 32 * n {
                vstd::arithmetic::power2::lemma_pow2_strictly_increases(self_bits as nat, 32 * n);
            }
            lemma_count_below(d * pow2(shift as nat), n);
            // the remainder starts below the divisor shifted one bit further
            vstd::arithmetic::power2::lemma_pow2_unfold(bs);
            lemma_pow2_adds((bd - 1) as nat, bs);
            assert(self_bits == (bd - 1) + bs);
            assert(v < d * pow2(bs)) by (nonlinear_arith)
                requires
                    v < pow2(self_bits as nat),
                    d >= pow2((bd - 1) as nat),
                    pow2(self_bits as nat) == pow2((bd - 1) as nat) * pow2(bs),
            ;
        }
        let mut shifted = divisor.shl_bits(shift)?;
        let mut remaining = shift + 1;
        proof {
            lemma2_to64();
            assert(0nat % pow2(remaining as nat) == 0) by (nonlinear_arith)
                requires
                    pow2(remaining as nat) > 0,
            ;
            assert(0nat * d == 0);
        }
        while remaining > 0
            invariant
                0 < d,
                v == self@,
                d == divisor@,
                n == self.limbs_view().len(),
                n <= MAX_LIMBS,
                v < weight(n),
                remaining <= shift + 1,
                shift < usize::MAX,
                quotient_required == shift / 32 + 1,
                quotient_limbs@.len() == quotient_required,
                remaining > 0 ==> shifted@ == d * pow2((remaining - 1) as nat),
                remainder@ + seq_value(quotient_limbs@) * d == v,
                remainder@ < d * pow2(remaining as nat),
                seq_value(quotient_limbs@) % pow2(remaining as nat) == 0,
            decreases remaining,
        {
            let position = remaining - 1;
            let ghost p = position as nat;
            let ghost q = seq_value(quotient_limbs@);
            proof {
                lemma_pow2_pos(p);
                vstd::arithmetic::power2::lemma_pow2_unfold(p + 1);
            }
            if !remainder.less_than(&shifted) {
                proof {
                    assert(remainder@ - shifted@ <= v);
                    lemma_count_below((remainder@ - shifted@) as nat, n);
                }
                let next = remainder.checked_sub(&shifted)?;
                remainder = next;
                let limb_index = position / 32;
                let old_limb = quotient_limbs[limb_index];
                let new_limb = old_limb | (1u32 << ((position % 32) as u32));
                proof {
                    lemma_low_bits_clear(q, p);
                    lemma_set_clear_bit(quotient_limbs@, p, old_limb, new_limb);
                }
                quotient_limbs.set(limb_index, new_limb);
                proof {
                    let q2 = q + pow2(p);
                    assert(seq_value(quotient_limbs@) == q2);
                    assert(remainder@ < d * pow2(p)) by (nonlinear_arith)
                        requires
                            remainder@ + d * pow2(p) < d * pow2(p + 1),
                            pow2(p + 1) == 2 * pow2(p),
                    ;
                    assert(remainder@ + q2 * d == v) by (nonlinear_arith)
                        requires
                            remainder@ == (v - q * d) - d * pow2(p),
                            q2 == q + pow2(p),
                    ;
                }
            } else {
                proof {
                    lemma_low_bits_clear(q, p);
                }
            }
            if position != 0 {
                let half = shifted.shr_bits(1)?;
                proof {
                    vstd::arithmetic::power2::lemma_pow2_unfold(p);
                    lemma2_to64();
                    assert(d * pow2(p) / 2 == d * pow2((p - 1) as nat)) by (nonlinear_arith)
                        requires
                            pow2(p) == 2 * pow2((p - 1) as nat),
                    ;
                }
                shifted = half;
            }
            remaining = position;
        }
        proof {
            lemma2_to64();
            let q = seq_value(quotient_limbs@);
            assert(d * pow2(0) == d);
            assert(q == v / d && remainder@ == v % d) by (nonlinear_arith)
                requires
                    remainder@ + q * d == v,
                    remainder@ < d,
                    d > 0,
            ;
            lemma_trimmed(quotient_limbs@);
        }
        let quotient = Self::from_limbs_le(quotient_limbs)?;
        Ok((quotient, remainder))
    }
}

/// The greatest common divisor, by Euclid's recurrence.
pub open spec fn gcd_spec(a: nat, b: nat) -> nat
    decreases b,
{
    if b == 0 {
        a
    } else {
        gcd_spec(b, a % b)
    }
}

/// The product `k * d`, named so that quantifiers can mention it.
pub open spec fn times(k: nat, d: nat) -> nat {
    k * d
}

/// `d` divides `a`.
pub open spec fn divides(d: nat, a: nat) -> bool {
    exists|k: nat| a == #[trigger] times(k, d)
}

pub proof fn lemma_divides_mod(d: nat, a: nat)
    requires
        d > 0,
    ensures
        divides(d, a) <==> a % d == 0,
{
    if a % d == 0 {
        vstd::arithmetic::div_mod::lemma_fundamental_div_mod(a as int, d as int);
        let k = a / d;
        assert(a == k * d) by (nonlinear_arith)
            requires
                a == d * (a / d) + a % d,
                a % d == 0,
                k == a / d,
        ;
        assert(a == times(k, d));
    }
    if divides(d, a) {
        let k = choose|k: nat| a == times(k, d);
        vstd::arithmetic::div_mod::lemma_mod_multiples_basic(k as int, d as int);
    }
}

/// The gcd divides both arguments.
pub proof fn lemma_gcd_divides(a: nat, b: nat)
    ensures
        divides(gcd_spec(a, b), a),
        divides(gcd_spec(a, b), b),
    decreases b,
{
    if b == 0 {
        assert(a == times(1, a));
        assert(b == times(0, a));
    } else {
        lemma_gcd_divides(b, a % b);
        let g = gcd_spec(a, b);
        let k1 = choose|k: nat| b == times(k, g);
        let k2 = choose|k: nat| a % b == times(k, g);
        vstd::arithmetic::div_mod::lemma_fundamental_div_mod(a as int, b as int);
        let q = a / b;
        assert(a == (q * k1 + k2) * g) by (nonlinear_arith)
            requires
                a == b * q + a % b,
                b == k1 * g,
                a % b == k2 * g,
        ;
        assert(a == times(q * k1 + k2, g));
    }
}

/// Every common divisor divides the gcd.
pub proof fn lemma_common_divisor_divides_gcd(a: nat, b: nat, d: nat)
    requires
        divides(d, a),
        divides(d, b),
    ensures
        divides(d, gcd_spec(a, b)),
    decreases b,
{
    if b > 0 {
        let ka = choose|k: nat| a == times(k, d);
        let kb = choose|k: nat| b == times(k, d);
        vstd::arithmetic::div_mod::lemma_fundamental_div_mod(a as int, b as int);
        let q = a / b;
        let r = a % b;
        assert(r == (ka - q * kb) * d) by (nonlinear_arith)
            requires
                a == b * q + r,
                a == ka * d,
                b == kb * d,
        ;
        if d > 0 {
            assert(ka - q * kb >= 0) by (nonlinear_arith)
                requires
                    a % b == (ka - q * kb) * d,
                    d > 0,
                    a % b >= 0,
            ;
        } else {
            assert(a % b == 0) by (nonlinear_arith)
                requires
                    a % b == (ka - q * kb) * d,
                    d == 0,
            ;
            assert(a % b == 0 * d);
        }
        let c = if d > 0 { (ka - q * kb) as nat } else { 0 };
        assert(a % b == times(c, d));
        lemma_common_divisor_divides_gcd(b, a % b, d);
    }
}

/// The gcd is positive when an argument is.
pub proof fn lemma_gcd_positive(a: nat, b: nat)
    requires
        a > 0 || b > 0,
    ensures
        gcd_spec(a, b) > 0,
    decreases b,
{
    if b > 0 {
        lemma_gcd_positive(b, a % b);
    }
}

impl BigUint {
    /// The quotient of a division that leaves no remainder.
    pub fn exact_div(&self, divisor: &Self) -> (r: Result<Self, BigintError>)
        ensures
            divisor@ == 0 ==> r == Err::<BigUint, BigintError>(BigintError::DivisionByZero),
            divisor@ != 0 ==> match r {
                Ok(q) => q@ * divisor@ == self@ && q@ == self@ / divisor@,
                Err(e) => e is AllocationFailure || (e == BigintError::NonExactDivision && self@
                    % divisor@ != 0),
            },
            divisor@ != 0 && self@ % divisor@ != 0 ==> r is Err,
    {
        let (quotient, remainder) = self.div_rem(divisor)?;
        if remainder.is_zero() {
            proof {
                vstd::arithmetic::div_mod::lemma_fundamental_div_mod(self@ as int, divisor@ as int);
                assert(quotient@ * divisor@ == self@) by (nonlinear_arith)
                    requires
                        self@ == divisor@ * (self@ / divisor@) + self@ % divisor@,
                        self@ % divisor@ == 0,
                        quotient@ == self@ / divisor@,
                ;
            }
            Ok(quotient)
        } else {
            Err(BigintError::NonExactDivision)
        }
    }

    /// The greatest common divisor (zero only for two zeros).
    pub fn gcd(&self, rhs: &Self) -> (r: Result<Self, BigintError>)
        ensures
            match r {
                Ok(g) => g@ == gcd_spec(self@, rhs@),
                Err(e) => e is AllocationFailure,
            },
    {
        proof {
            use_type_invariant(self);
            use_type_invariant(rhs);
            self.lemma_shape();
            rhs.lemma_shape();
        }
        let mut left = self.try_clone()?;
        let mut right = rhs.try_clone()?;
        while !right.is_zero()
            invariant
                gcd_spec(left@, right@) == gcd_spec(self@, rhs@),
            decreases right@,
        {
            let (_, remainder) = left.div_rem(&right)?;
            proof {
                assert(gcd_spec(left@, right@) == gcd_spec(right@, left@ % right@));
                assert(left@ % right@ < right@) by (nonlinear_arith)
                    requires
                        right@ > 0,
                ;
            }
            left = right;
            right = remainder;
        }
        Ok(left)
    }

    /// The least common multiple: `self / gcd * rhs`, zero when either is zero.
    pub fn lcm(&self, rhs: &Self) -> (r: Result<Self, BigintError>)
        ensures
            self@ == 0 || rhs@ == 0 ==> (r matches Ok(v) && v@ == 0),
            match r {
                Ok(l) => l@ == self@ / gcd_spec(self@, rhs@) * rhs@,
                Err(e) => e is AllocationFailure || e is CapacityOverflow,
            },
    {
        if self.is_zero() || rhs.is_zero() {
            proof {
                if self@ == 0 {
                    assert(gcd_spec(0, rhs@) > 0 ==> 0nat / gcd_spec(0, rhs@) == 0);
                    if rhs@ > 0 {
                        lemma_gcd_positive(0, rhs@);
                    }
                }
                let g = gcd_spec(self@, rhs@);
                assert(self@ / g * rhs@ == 0) by (nonlinear_arith)
                    requires
                        self@ == 0 || rhs@ == 0,
                        self@ == 0 ==> g > 0 || rhs@ == 0,
                ;
            }
            return Ok(Self::zero());
        }
        let g = self.gcd(rhs)?;
        proof {
            lemma_gcd_positive(self@, rhs@);
            lemma_gcd_divides(self@, rhs@);
            lemma_divides_mod(g@, self@);
        }
        let reduced = self.exact_div(&g)?;
        proof {
            assert(reduced@ != 0) by (nonlinear_arith)
                requires
                    reduced@ * g@ == self@,
                    self@ != 0,
            ;
        }
        reduced.mul(rhs)
    }
}

impl BigUint {
    /// The value raised to `exponent`, by repeated squaring.
    pub fn pow_u32(&self, exponent: u32) -> (r: Result<Self, BigintError>)
        ensures
            match r {
                Ok(v) => v@ == pow(self@ as int, exponent as nat),
                Err(e) => e is AllocationFailure || e is CapacityOverflow,
            },
    {
        let mut result = Self::one()?;
        let mut base = self.try_clone()?;
        let mut e = exponent;
        proof {
            lemma_pow0(self@ as int);
            lemma_pow1(self@ as int);
            lemma2_to64();
            assert(limb_count(1) == 1) by {
                lemma_weight_zero();
                lemma_weight_succ(0);
                lemma_limb_count_range(1, 1);
            }
        }
        while e != 0
            invariant
                result@ * pow(base@ as int, e as nat) == pow(self@ as int, exponent as nat),
            decreases e,
        {
            let ghost b = base@ as int;
            let ghost e0 = e as nat;
            proof {
                lemma_pow_adds(b, (e0 / 2) as nat, (e0 / 2) as nat);
                lemma_pow_multiplies(b, 2, (e0 / 2) as nat);
                vstd::arithmetic::power::lemma_square_is_pow2(b);
                lemma_pow_adds(b, 1, (2 * (e0 / 2)) as nat);
                lemma_pow1(b);
                assert((e & 1 != 0) == (e % 2 == 1)) by (bit_vector);
                assert(e >> 1 == e / 2) by (bit_vector);
            }
            if e & 1 != 0 {
                let next = result.mul(&base)?;
                proof {
                    assert(e0 == 1 + 2 * (e0 / 2));
                    let rest = pow(b, (2 * (e0 / 2)) as nat);
                    assert(pow(b, e0) == b * rest);
                    assert(next@ * rest == result@ * pow(b, e0)) by (nonlinear_arith)
                        requires
                            next@ == result@ * b,
                            pow(b, e0) == b * rest,
                    ;
                }
                result = next;
            } else {
                proof {
                    assert(e0 == 2 * (e0 / 2));
                }
            }
            e = e >> 1;
            if e != 0 {
                let squared = base.mul(&base)?;
                proof {
                    assert(pow(b, 2) == b * b);
                    assert(pow(squared@ as int, e as nat) == pow(b, (2 * (e0 / 2)) as nat));
                }
                base = squared;
            } else {
                proof {
                    lemma_pow0(base@ as int);
                    lemma_pow0(b);
                    assert(pow(b, (2 * (e0 / 2)) as nat) == pow(b, 0));
                }
            }
        }
        proof {
            lemma_pow0(base@ as int);
        }
        Ok(result)
    }
}

impl BigUint {
    /// The natural number with value `value`.
    #[verifier::rlimit(30)]
    pub fn from_u64(value: u64) -> (r: Result<Self, BigintError>)
        ensures
            produces(r, value as nat),
    {
        let low = #[verifier::truncate] (value as u32);
        let high = (value >> 32) as u32;
        proof {
            assert(value == low + high * 0x1_0000_0000 && high == value / 0x1_0000_0000)
                by (bit_vector)
                requires
                    low == value as u32,
                    high == (value >> 32) as u32,
            ;
            lemma_weight_zero();
            lemma_weight_succ(0);
            lemma_weight_succ(1);
            if value == 0 {
            } else if high == 0 {
                lemma_limb_count_range(value as nat, 1);
            } else {
                lemma_limb_count_range(value as nat, 2);
            }
        }
        let required: usize = if value == 0 {
            0
        } else if high == 0 {
            1
        } else {
            2
        };
        let mut limbs: Vec<u32> = Vec::new();
        reserve_limbs(&mut limbs, required)?;
        proof {
            assert(seq_value(limbs@) == 0) by {
                crate::limbs::lemma_value_empty(limbs@);
            }
        }
        if value != 0 {
            proof {
                lemma_value_push(limbs@, low);
                assert(low * weight(0) == low as nat);
            }
            limbs.push(low);
        }
        if high != 0 {
            proof {
                lemma_value_push(limbs@, high);
                assert(limbs@.len() == 1);
                assert(high * weight(1) == high * 0x1_0000_0000);
            }
            limbs.push(high);
        }
        proof {
            assert(seq_value(limbs@) == value);
            assert(normalized(limbs@));
        }
        Ok(BigUint { limbs })
    }
}

/// A `u64` needs at most two limbs.
pub proof fn lemma_limb_count_u64(value: u64)
    ensures
        limb_count(value as nat) <= 2,
{
    lemma_weight_zero();
    lemma_weight_succ(0);
    lemma_weight_succ(1);
    lemma_limb_count_mono(value as nat, (weight(2) - 1) as nat);
    lemma_limb_count_range((weight(2) - 1) as nat, 2);
}

impl vstd::std_specs::convert::TryFromSpecImpl<u8> for BigUint {
    open spec fn obeys_try_from_spec() -> bool {
        false
    }

    open spec fn try_from_spec(v: u8) -> Result<Self, Self::Error> {
        Err(BigintError::CapacityOverflow)
    }
}

impl TryFrom<u8> for BigUint {
    type Error = BigintError;

    fn try_from(value: u8) -> (r: Result<Self, Self::Error>)
        ensures
            produces(r, value as nat),
    {
        Self::from_u64(value as u64)
    }
}

impl vstd::std_specs::convert::TryFromSpecImpl<u16> for BigUint {
    open spec fn obeys_try_from_spec() -> bool {
        false
    }

    open spec fn try_from_spec(v: u16) -> Result<Self, Self::Error> {
        Err(BigintError::CapacityOverflow)
    }
}

impl TryFrom<u16> for BigUint {
    type Error = BigintError;

    fn try_from(value: u16) -> (r: Result<Self, Self::Error>)
        ensures
            produces(r, value as nat),
    {
        Self::from_u64(value as u64)
    }
}

impl vstd::std_specs::convert::TryFromSpecImpl<u32> for BigUint {
    open spec fn obeys_try_from_spec() -> bool {
        false
    }

    open spec fn try_from_spec(v: u32) -> Result<Self, Self::Error> {
        Err(BigintError::CapacityOverflow)
    }
}

impl TryFrom<u32> for BigUint {
    type Error = BigintError;

    fn try_from(value: u32) -> (r: Result<Self, Self::Error>)
        ensures
            produces(r, value as nat),
    {
        Self::from_u64(value as u64)
    }
}

impl vstd::std_specs::convert::TryFromSpecImpl<u64> for BigUint {
    open spec fn obeys_try_from_spec() -> bool {
        false
    }

    open spec fn try_from_spec(v: u64) -> Result<Self, Self::Error> {
        Err(BigintError::CapacityOverflow)
    }
}

impl TryFrom<u64> for BigUint {
    type Error = BigintError;

    fn try_from(value: u64) -> (r: Result<Self, Self::Error>)
        ensures
            produces(r, value as nat),
    {
        Self::from_u64(value)
    }
}

impl vstd::std_specs::convert::TryFromSpecImpl<usize> for BigUint {
    open spec fn obeys_try_from_spec() -> bool {
        false
    }

    open spec fn try_from_spec(v: usize) -> Result<Self, Self::Error> {
        Err(BigintError::CapacityOverflow)
    }
}

impl TryFrom<usize> for BigUint {
    type Error = BigintError;

    fn try_from(value: usize) -> (r: Result<Self, Self::Error>)
        ensures
            produces(r, value as nat),
    {
        Self::from_u64(value as u64)
    }
}

impl PartialOrd for BigUint {
    fn partial_cmp(&self, other: &Self) -> (r: Option<Ordering>) {
        Some(self.cmp(other))
    }
}

impl vstd::std_specs::cmp::PartialOrdSpecImpl for BigUint {
    open spec fn obeys_partial_cmp_spec() -> bool {
        true
    }

    open spec fn partial_cmp_spec(&self, other: &Self) -> Option<Ordering> {
        Some(ordering_of(self@, other@))
    }
}

} // verus!
