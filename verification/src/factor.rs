//! Helpers of the factorization of integer polynomials.
use crate::algnum_error::{
    allocation_total_to_usize, reserve_elements, resource_failure, AlgnumError, AllocationResource,
};
use crate::integer::{abs, BigInt, Sign};
use crate::natural::BigUint;
use crate::polynomial::{int_values, is_trimmed, poly_eval, Polynomial};
use core::cmp::Ordering;
use vstd::prelude::*;

verus! {

/// Whether a candidate factor degree is positive and at most `maximum`.
pub fn candidate_degree_allowed(degree: usize, maximum: usize) -> (r: bool)
    ensures
        r == (degree != 0 && degree <= maximum),
{
    degree != 0 && degree <= maximum
}

/// Lexicographic order of coefficient sequences read from the highest degree down;
/// a sequence that runs out first is the smaller.
pub open spec fn poly_order(a: Seq<int>, b: Seq<int>) -> int
    decreases a.len(),
{
    if a.len() == 0 && b.len() == 0 {
        0
    } else if a.len() == 0 {
        -1
    } else if b.len() == 0 {
        1
    } else if a.last() < b.last() {
        -1
    } else if a.last() > b.last() {
        1
    } else {
        poly_order(a.drop_last(), b.drop_last())
    }
}

/// Compares two polynomials by their coefficients from the highest degree down:
/// `-1`, `0` or `1`.
pub(crate) fn polynomial_order(left: &Polynomial, right: &Polynomial) -> (r: i8)
    ensures
        r == poly_order(left@, right@),
{
    let a = left.coefficients();
    let b = right.coefficients();
    let ghost sa = left@;
    let ghost sb = right@;
    let mut i = a.len();
    let mut j = b.len();
    proof {
        assert(sa.len() == a@.len());
        assert(sb.len() == b@.len());
        assert(sa.subrange(0, i as int) =~= sa);
        assert(sb.subrange(0, j as int) =~= sb);
    }
    while i > 0 && j > 0
        invariant
            i <= a@.len(),
            j <= b@.len(),
            sa == left@,
            sb == right@,
            crate::polynomial::int_values(a@) == sa,
            crate::polynomial::int_values(b@) == sb,
            a@.len() - i == b@.len() - j,
            poly_order(sa, sb) == poly_order(sa.subrange(0, i as int), sb.subrange(0, j as int)),
        decreases i,
    {
        let x = &a[i - 1];
        let y = &b[j - 1];
        let ghost ta = sa.subrange(0, i as int);
        let ghost tb = sb.subrange(0, j as int);
        proof {
            assert(sa[i - 1] == x@);
            assert(sb[j - 1] == y@);
            assert(ta.last() == x@);
            assert(tb.last() == y@);
            assert(ta.drop_last() =~= sa.subrange(0, i - 1));
            assert(tb.drop_last() =~= sb.subrange(0, j - 1));
        }
        if x.is_less_than(y) {
            assert(poly_order(ta, tb) == -1);
            return -1;
        }
        if y.is_less_than(x) {
            assert(poly_order(ta, tb) == 1);
            return 1;
        }
        i = i - 1;
        j = j - 1;
    }
    proof {
        assert(sa.subrange(0, i as int).len() == i);
        assert(sb.subrange(0, j as int).len() == j);
    }
    if i == 0 && j == 0 {
        0
    } else if i == 0 {
        -1
    } else {
        1
    }
}

/// The first of the smallest candidates in the order of `poly_order`, if any.
pub fn select_minimum_candidate(candidates: Vec<Polynomial>) -> (r: Option<Polynomial>)
    ensures
        candidates@.len() == 0 ==> r is None,
        candidates@.len() > 0 ==> (r matches Some(p) && exists|i: int|
            0 <= i < candidates@.len() && candidates@[i] == p && (forall|j: int|
                0 <= j < candidates@.len() ==> poly_order(#[trigger] candidates@[j]@, p@) >= 0)
                && (forall|j: int| 0 <= j < i ==> poly_order(#[trigger] candidates@[j]@, p@) > 0)),
{
    let mut candidates = candidates;
    let ghost all = candidates@;
    let mut selected: Option<Polynomial> = None;
    let ghost mut selected_index: int = 0;
    while candidates.len() > 0
        invariant
            candidates@.len() <= all.len(),
            forall|k: int| 0 <= k < candidates@.len() ==> candidates@[k] == all[k],
            candidates@.len() == all.len() ==> selected is None,
            candidates@.len() < all.len() ==> (selected matches Some(p) && candidates@.len()
                <= selected_index < all.len() && all[selected_index] == p && (forall|j: int|
                candidates@.len() <= j < all.len() ==> poly_order(#[trigger] all[j]@, p@) >= 0)
                && (forall|j: int|
                candidates@.len() <= j < selected_index ==> poly_order(#[trigger] all[j]@, p@)
                > 0)),
        decreases candidates@.len(),
    {
        let ghost before = candidates@;
        let candidate = match candidates.pop() {
            Some(value) => value,
            None => return selected,
        };
        let ghost here = candidates@.len() as int;
        proof {
            assert(candidate == all[here]);
            assert forall|k: int| 0 <= k < candidates@.len() implies candidates@[k] == all[k] by {
                assert(candidates@[k] == before[k]);
            }
        }
        let replace = match &selected {
            None => true,
            Some(current) => polynomial_order(&candidate, current) <= 0,
        };
        if replace {
            proof {
                if here + 1 < all.len() {
                    let p = selected->0;
                    assert forall|j: int| here <= j < all.len() implies poly_order(
                        #[trigger] all[j]@,
                        candidate@,
                    ) >= 0 by {
                        lemma_poly_order_properties(p@, candidate@, p@);
                        lemma_poly_order_properties(all[j]@, p@, candidate@);
                        lemma_poly_order_properties(candidate@, candidate@, candidate@);
                    }
                } else {
                    lemma_poly_order_properties(candidate@, candidate@, candidate@);
                }
                selected_index = here;
            }
            selected = Some(candidate);
        } else {
            proof {
                let p = selected->0;
                lemma_poly_order_properties(candidate@, p@, p@);
                assert forall|j: int| here <= j < selected_index implies poly_order(
                    #[trigger] all[j]@,
                    p@,
                ) > 0 by {}
            }
        }
    }
    selected
}

/// `poly_order` is a total preorder that is zero exactly on equal sequences:
/// antisymmetric and transitive.
pub proof fn lemma_poly_order_properties(a: Seq<int>, b: Seq<int>, c: Seq<int>)
    ensures
        poly_order(a, a) == 0,
        poly_order(a, b) == -poly_order(b, a),
        poly_order(a, b) >= 0 && poly_order(b, c) > 0 ==> poly_order(a, c) > 0,
        poly_order(a, b) > 0 && poly_order(b, c) >= 0 ==> poly_order(a, c) > 0,
        poly_order(a, b) >= 0 && poly_order(b, c) >= 0 ==> poly_order(a, c) >= 0,
        -1 <= poly_order(a, b) <= 1,
{
    lemma_poly_order_antisymmetric(a, b);
    lemma_poly_order_transitive(a, b, c);
}

proof fn lemma_poly_order_antisymmetric(a: Seq<int>, b: Seq<int>)
    ensures
        poly_order(a, a) == 0,
        poly_order(a, b) == -poly_order(b, a),
        -1 <= poly_order(a, b) <= 1,
    decreases a.len(),
{
    if a.len() > 0 {
        lemma_poly_order_antisymmetric(a.drop_last(), a.drop_last());
        if b.len() > 0 {
            lemma_poly_order_antisymmetric(a.drop_last(), b.drop_last());
        }
    }
}

proof fn lemma_poly_order_transitive(a: Seq<int>, b: Seq<int>, c: Seq<int>)
    ensures
        poly_order(a, b) >= 0 && poly_order(b, c) > 0 ==> poly_order(a, c) > 0,
        poly_order(a, b) > 0 && poly_order(b, c) >= 0 ==> poly_order(a, c) > 0,
        poly_order(a, b) >= 0 && poly_order(b, c) >= 0 ==> poly_order(a, c) >= 0,
    decreases a.len(),
{
    if a.len() > 0 && b.len() > 0 && c.len() > 0 {
        lemma_poly_order_transitive(a.drop_last(), b.drop_last(), c.drop_last());
    }
}

/// Compares two polynomials by their coefficients from the highest degree down.
pub fn compare_polynomials(left: &Polynomial, right: &Polynomial) -> (r: Ordering)
    ensures
        r == (if poly_order(left@, right@) < 0 {
            Ordering::Less
        } else if poly_order(left@, right@) == 0 {
            Ordering::Equal
        } else {
            Ordering::Greater
        }),
{
    let order = polynomial_order(left, right);
    if order < 0 {
        Ordering::Less
    } else if order == 0 {
        Ordering::Equal
    } else {
        Ordering::Greater
    }
}

/// The order of signed divisors: by magnitude, then the positive one first.
pub open spec fn divisor_precedes(x: int, y: int) -> bool {
    abs(x) < abs(y) || (abs(x) == abs(y) && x > 0 && y < 0)
}

/// Each value, followed by its negation.
pub open spec fn signed_pairs(values: Seq<int>) -> Seq<int> {
    Seq::new(
        2 * values.len(),
        |k: int|
            if k % 2 == 0 {
                values[k / 2]
            } else {
                -values[k / 2]
            },
    )
}

/// The values of a sequence of naturals.
pub open spec fn nat_values(s: Seq<BigUint>) -> Seq<int> {
    Seq::new(s.len(), |i: int| s[i]@ as int)
}

/// The divisors of `n` found below `c`: the small ones `d` in increasing order and the
/// large cofactors `n / d` (other than `d` itself) in decreasing order, all small ones
/// below all large ones.
pub open spec fn divisor_scan(n: int, c: int, small: Seq<int>, large: Seq<int>) -> bool {
    &&& forall|i: int|
        0 <= i < small.len() ==> 0 < #[trigger] small[i] < c && n % small[i] == 0 && small[i]
            * small[i] <= n
    &&& forall|i: int, j: int| 0 <= i < j < small.len() ==> #[trigger] small[i] < #[trigger] small[j]
    &&& forall|d: int| 0 < d < c && n % d == 0 ==> #[trigger] small.contains(d)
    &&& forall|i: int|
        0 <= i < large.len() ==> 0 < #[trigger] large[i] && n % large[i] == 0 && n / large[i] < c
            && n / large[i] < large[i]
    &&& forall|i: int, j: int| 0 <= i < j < large.len() ==> #[trigger] large[i] > #[trigger] large[j]
    &&& forall|s: int| 0 < s < c && n % s == 0 && s * s < n ==> #[trigger] large.contains(n / s)
    &&& forall|i: int, j: int|
        0 <= i < small.len() && 0 <= j < large.len() ==> #[trigger] small[i] < #[trigger] large[j]
}

proof fn lemma_scan_step_bounds(n: int, c: int, q: int, r: int)
    requires
        n > 0,
        c > 0,
        n == c * q + r,
        0 <= r < c,
    ensures
        c <= q ==> c * c <= n && q <= n,
        q < c ==> n < c * c,
        r == 0 ==> c * q == n,
{
    if c <= q {
        assert(c * c <= c * q) by (nonlinear_arith)
            requires
                c <= q,
                c > 0,
        ;
        assert(q <= c * q) by (nonlinear_arith)
            requires
                c >= 1,
                q >= 0,
        ;
    } else {
        assert(c * q + c <= c * c) by (nonlinear_arith)
            requires
                q + 1 <= c,
                c > 0,
        ;
    }
}

/// A smaller divisor has the larger cofactor.
proof fn lemma_cofactor_order(s: int, a: int, c: int, b: int)
    requires
        0 < s < c,
        s * a == c * b,
        b > 0,
    ensures
        a > b,
{
    if a <= b {
        assert(s * a < c * b) by (nonlinear_arith)
            requires
                0 < s < c,
                a <= b,
                b > 0,
        ;
    }
}

/// The scan of the divisors of `value` (with the count of the divisors it finds); the
/// divisors are recorded only when `collect`.
fn visit_absolute_divisors(
    value: &BigUint,
    collect: bool,
    smalls: &mut Vec<BigUint>,
    larges: &mut Vec<BigUint>,
) -> (r: Result<BigUint, AlgnumError>)
    requires
        old(smalls)@.len() == 0,
        old(larges)@.len() == 0,
    ensures
        match r {
            Ok(_) => (collect ==> exists|c: int|
                c > 0 && divisor_scan(value@ as int, c, nat_values(final(smalls)@), nat_values(
                    final(larges)@,
                )) && (value@ > 0 ==> value@ < c * c)) && (value@ == 0 ==> final(smalls)@.len()
                == 0 && final(larges)@.len() == 0),
            Err(e) => resource_failure(e),
        },
{
    if value.is_zero() {
        proof {
            assert(nat_values(smalls@) =~= Seq::<int>::empty());
            assert(nat_values(larges@) =~= Seq::<int>::empty());
            assert(divisor_scan(value@ as int, 1, nat_values(smalls@), nat_values(larges@)));
        }
        return Ok(BigUint::zero());
    }
    let ghost n = value@ as int;
    let one = match BigUint::one() {
        Ok(v) => v,
        Err(error) => return Err(AlgnumError::Bigint(error)),
    };
    let mut candidate = match one.try_clone() {
        Ok(v) => v,
        Err(error) => return Err(AlgnumError::Bigint(error)),
    };
    let mut count = BigUint::zero();
    proof {
        assert(nat_values(smalls@) =~= Seq::<int>::empty());
        assert(nat_values(larges@) =~= Seq::<int>::empty());
    }
    loop
        invariant
            n == value@,
            n > 0,
            one@ == 1,
            1 <= candidate@ <= n + 1,
            collect ==> divisor_scan(n, candidate@ as int, nat_values(smalls@), nat_values(larges@)),
            !collect ==> smalls@.len() == 0 && larges@.len() == 0,
        decreases n + 1 - candidate@,
    {
        let ghost c = candidate@ as int;
        let (quotient, remainder) = match value.div_rem(&candidate) {
            Ok(v) => v,
            Err(error) => return Err(AlgnumError::Bigint(error)),
        };
        let ghost q = quotient@ as int;
        proof {
            vstd::arithmetic::div_mod::lemma_fundamental_div_mod(n, c);
            lemma_scan_step_bounds(n, c, q, remainder@ as int);
        }
        if quotient.less_than(&candidate) {
            return Ok(count);
        }
        if remainder.is_zero() {
            let equal = !candidate.less_than(&quotient);
            let increment: u32 = if equal {
                1
            } else {
                2
            };
            let step = match BigUint::try_from(increment) {
                Ok(v) => v,
                Err(error) => return Err(AlgnumError::Bigint(error)),
            };
            count = match count.add(&step) {
                Ok(v) => v,
                Err(error) => return Err(AlgnumError::Bigint(error)),
            };
            if collect {
                let ghost small_before = nat_values(smalls@);
                let ghost large_before = nat_values(larges@);
                let small = match candidate.try_clone() {
                    Ok(v) => v,
                    Err(error) => return Err(AlgnumError::Bigint(error)),
                };
                smalls.push(small);
                proof {
                    assert(nat_values(smalls@) =~= small_before.push(c));
                }
                if !equal {
                    larges.push(quotient);
                    proof {
                        assert(nat_values(larges@) =~= large_before.push(q));
                    }
                }
                proof {
                    lemma_divisor_scan_step(n, c, q, equal, small_before, large_before,
                        nat_values(smalls@), nat_values(larges@));
                }
            }
        } else {
            proof {
                if collect {
                    lemma_divisor_scan_skip(n, c, nat_values(smalls@), nat_values(larges@));
                }
            }
        }
        candidate = match candidate.add(&one) {
            Ok(v) => v,
            Err(error) => return Err(AlgnumError::Bigint(error)),
        };
    }
}

/// A candidate that does not divide leaves the scan as it is, one further along.
proof fn lemma_divisor_scan_skip(n: int, c: int, small: Seq<int>, large: Seq<int>)
    requires
        divisor_scan(n, c, small, large),
        c > 0,
        n % c != 0,
    ensures
        divisor_scan(n, c + 1, small, large),
{
}

/// A dividing candidate `c`, with cofactor `q` at least `c`, joins the small divisors, and
/// `q` the large ones unless it equals `c`.
proof fn lemma_divisor_scan_step(
    n: int,
    c: int,
    q: int,
    equal: bool,
    small: Seq<int>,
    large: Seq<int>,
    small_after: Seq<int>,
    large_after: Seq<int>,
)
    requires
        divisor_scan(n, c, small, large),
        c > 0,
        c <= q,
        c * q == n,
        c * c <= n,
        equal == (c == q),
        small_after == small.push(c),
        large_after == if equal {
            large
        } else {
            large.push(q)
        },
    ensures
        divisor_scan(n, c + 1, small_after, large_after),
{
    assert(n % c == 0) by {
        vstd::arithmetic::div_mod::lemma_mod_multiples_basic(q, c);
        assert(q * c == c * q) by (nonlinear_arith);
    }
    assert(n / c == q) by {
        vstd::arithmetic::div_mod::lemma_div_multiples_vanish(q, c);
        assert(q * c == c * q) by (nonlinear_arith);
    }
    assert forall|d: int| 0 < d < c + 1 && n % d == 0 implies #[trigger] small_after.contains(d) by {
        if d < c {
            assert(small.contains(d));
            let i = choose|i: int| 0 <= i < small.len() && small[i] == d;
            assert(small_after[i] == d);
        } else {
            assert(small_after[small.len() as int] == c);
        }
    }
    assert forall|i: int| 0 <= i < large.len() implies large[i] > q by {
        let l = large[i];
        vstd::arithmetic::div_mod::lemma_fundamental_div_mod(n, l);
        assert(n / l * l == n) by (nonlinear_arith)
            requires
                n == l * (n / l) + n % l,
                n % l == 0,
        ;
        lemma_cofactor_order(n / l, l, c, q);
    }
    assert forall|i: int| 0 <= i < large_after.len() implies 0 < #[trigger] large_after[i] && n
        % large_after[i] == 0 && n / large_after[i] < c + 1 && n / large_after[i] < large_after[i] by {
        if i < large.len() {
            assert(large_after[i] == large[i]);
        } else {
            assert(large_after[i] == q);
            assert(n % q == 0 && n / q == c) by {
                vstd::arithmetic::div_mod::lemma_mod_multiples_basic(c, q);
                vstd::arithmetic::div_mod::lemma_div_multiples_vanish(c, q);
                assert(c * q == q * c) by (nonlinear_arith);
            }
        }
    }
    assert forall|s: int| 0 < s < c + 1 && n % s == 0 && s * s < n implies #[trigger] large_after.contains(
        n / s,
    ) by {
        if s < c {
            assert(large.contains(n / s));
            let i = choose|i: int| 0 <= i < large.len() && large[i] == n / s;
            assert(large_after[i] == n / s);
        } else {
            assert(s == c);
            assert(c * c < n);
            assert(!equal);
            assert(large_after[large.len() as int] == q);
        }
    }
    assert forall|i: int, j: int|
        0 <= i < small_after.len() && 0 <= j < large_after.len() implies #[trigger] small_after[i]
        < #[trigger] large_after[j] by {
        if j < large.len() {
            assert(large_after[j] == large[j]);
            assert(large[j] > q);
            if i < small.len() {
                assert(small_after[i] == small[i]);
            }
        } else {
            assert(large_after[j] == q);
            assert(q != c);
            if i < small.len() {
                assert(small_after[i] == small[i]);
            }
        }
    }
    assert forall|i: int, j: int| 0 <= i < j < large_after.len() implies #[trigger] large_after[i]
        > #[trigger] large_after[j] by {
        if j >= large.len() {
            assert(large_after[i] == large[i]);
        }
    }
}

/// The signed integers whose magnitude divides `value`, ordered by magnitude with the
/// positive one first; none for zero.
pub fn signed_divisors(value: &BigInt) -> (r: Result<Vec<BigInt>, AlgnumError>)
    ensures
        match r {
            Ok(v) => (forall|i: int, j: int|
                0 <= i < j < v@.len() ==> divisor_precedes(
                    #[trigger] int_values(v@)[i],
                    #[trigger] int_values(v@)[j],
                )) && (forall|x: int|
                #[trigger] int_values(v@).contains(x) <==> (abs(value@) > 0 && x != 0 && abs(
                    value@,
                ) % abs(x) == 0)),
            Err(e) => resource_failure(e),
        },
{
    let magnitude = value.magnitude();
    let ghost n = magnitude@ as int;
    let mut no_smalls: Vec<BigUint> = Vec::new();
    let mut no_larges: Vec<BigUint> = Vec::new();
    let found = visit_absolute_divisors(magnitude, false, &mut no_smalls, &mut no_larges)?;
    let two = match BigUint::try_from(2u32) {
        Ok(v) => v,
        Err(error) => return Err(AlgnumError::Bigint(error)),
    };
    let total = match found.mul(&two) {
        Ok(v) => v,
        Err(error) => return Err(AlgnumError::Bigint(error)),
    };
    let total = allocation_total_to_usize(&total, AllocationResource::Divisors)?;
    let mut divisors: Vec<BigInt> = Vec::new();
    reserve_elements(&mut divisors, total, AllocationResource::Divisors)?;
    let mut smalls: Vec<BigUint> = Vec::new();
    let mut larges: Vec<BigUint> = Vec::new();
    visit_absolute_divisors(magnitude, true, &mut smalls, &mut larges)?;
    let ghost small = nat_values(smalls@);
    let ghost large = nat_values(larges@);
    let mut index: usize = 0;
    while index < smalls.len()
        invariant
            small == nat_values(smalls@),
            index <= smalls@.len(),
            int_values(divisors@) == signed_pairs(small.subrange(0, index as int)),
        decreases smalls@.len() - index,
    {
        append_signed(&mut divisors, &smalls[index])?;
        proof {
            assert(signed_pairs(small.subrange(0, index as int)).push(small[index as int]).push(
                -small[index as int],
            ) =~= signed_pairs(small.subrange(0, index + 1)));
        }
        index = index + 1;
    }
    proof {
        assert(small.subrange(0, small.len() as int) =~= small);
    }
    let ghost low = int_values(divisors@);
    let mut remaining = larges.len();
    while remaining > 0
        invariant
            large == nat_values(larges@),
            remaining <= larges@.len(),
            low == signed_pairs(small),
            int_values(divisors@) == low + signed_pairs(
                large.subrange(remaining as int, large.len() as int).reverse(),
            ),
        decreases remaining,
    {
        remaining = remaining - 1;
        let ghost before = int_values(divisors@);
        append_signed(&mut divisors, &larges[remaining])?;
        proof {
            let tail = large.subrange(remaining as int, large.len() as int).reverse();
            let prev = large.subrange(remaining + 1, large.len() as int).reverse();
            assert(tail =~= prev.push(large[remaining as int]));
            assert(signed_pairs(prev).push(large[remaining as int]).push(-large[remaining as int])
                =~= signed_pairs(tail));
            assert(before.push(large[remaining as int]).push(-large[remaining as int]) =~= low
                + signed_pairs(tail));
        }
    }
    proof {
        assert(large.subrange(0, large.len() as int) =~= large);
        assert(int_values(divisors@) == signed_divisor_list(small, large));
        lemma_signed_divisor_list(n, small, large);
        assert(abs(value@) == n);
    }
    Ok(divisors)
}

/// Appends the integer `magnitude`, then its negation.
fn append_signed(values: &mut Vec<BigInt>, magnitude: &BigUint) -> (r: Result<(), AlgnumError>)
    ensures
        match r {
            Ok(()) => int_values(final(values)@) == int_values(old(values)@).push(
                magnitude@ as int,
            ).push(-(magnitude@ as int)),
            Err(e) => resource_failure(e),
        },
{
    let positive = match magnitude.try_clone() {
        Ok(v) => v,
        Err(error) => return Err(AlgnumError::Bigint(error)),
    };
    let negative = match magnitude.try_clone() {
        Ok(v) => v,
        Err(error) => return Err(AlgnumError::Bigint(error)),
    };
    let ghost before = int_values(values@);
    values.push(BigInt::from_sign_magnitude(Sign::Positive, positive));
    values.push(BigInt::from_sign_magnitude(Sign::Negative, negative));
    proof {
        assert(int_values(values@) =~= before.push(magnitude@ as int).push(-(magnitude@ as int)));
    }
    Ok(())
}


/// The signed divisors listed by `signed_divisors`: each small divisor and then each
/// large one in increasing order, each followed by its negation.
pub open spec fn signed_divisor_list(small: Seq<int>, large: Seq<int>) -> Seq<int> {
    signed_pairs(small) + signed_pairs(large.reverse())
}

/// The magnitude of pair `p` of the list.
pub open spec fn pair_magnitude(small: Seq<int>, large: Seq<int>, p: int) -> int {
    if p < small.len() {
        small[p]
    } else {
        large[large.len() - 1 - (p - small.len())]
    }
}

proof fn lemma_list_entry(small: Seq<int>, large: Seq<int>, k: int)
    requires
        0 <= k < 2 * (small.len() + large.len()),
    ensures
        signed_divisor_list(small, large).len() == 2 * (small.len() + large.len()),
        signed_divisor_list(small, large)[k] == if k % 2 == 0 {
            pair_magnitude(small, large, k / 2)
        } else {
            -pair_magnitude(small, large, k / 2)
        },
{
    let a = signed_pairs(small);
    let b = signed_pairs(large.reverse());
    if k >= a.len() {
        let j = k - a.len();
        vstd::arithmetic::div_mod::lemma_fundamental_div_mod(k, 2);
        vstd::arithmetic::div_mod::lemma_fundamental_div_mod_converse(
            j,
            2,
            k / 2 - small.len(),
            k % 2,
        );
        assert((a + b)[k] == b[j]);
    }
}

proof fn lemma_pair_magnitudes_increase(n: int, c: int, small: Seq<int>, large: Seq<int>, p: int, t: int)
    requires
        divisor_scan(n, c, small, large),
        0 <= p <= t < small.len() + large.len(),
    ensures
        0 < pair_magnitude(small, large, p),
        p < t ==> pair_magnitude(small, large, p) < pair_magnitude(small, large, t),
{
    if p == t {
    } else if t < small.len() {
    } else if p < small.len() {
        let j = large.len() - 1 - (t - small.len());
        assert(small[p] < large[j]);
    } else {
        let i = large.len() - 1 - (p - small.len());
        let j = large.len() - 1 - (t - small.len());
        assert(large[j] > large[i]);
    }
    if p < small.len() {
        assert(small[p] > 0);
    } else {
        let i = large.len() - 1 - (p - small.len());
    }
}

proof fn lemma_small_square(e: int, n: int, c: int)
    requires
        e > 0,
        c > 0,
        e * e <= n,
        n < c * c,
    ensures
        e < c,
{
    if e >= c {
        assert(c * c <= e * e) by (nonlinear_arith)
            requires
                e >= c,
                c > 0,
        ;
    }
}

/// The list is ordered by magnitude with the positive one first, and holds exactly the
/// signed divisors of `n`.
proof fn lemma_signed_divisor_list(n: int, small: Seq<int>, large: Seq<int>)
    requires
        n >= 0,
        n == 0 ==> small.len() == 0 && large.len() == 0,
        n > 0 ==> exists|c: int| c > 0 && divisor_scan(n, c, small, large) && n < c * c,
    ensures
        forall|i: int, j: int|
            0 <= i < j < signed_divisor_list(small, large).len() ==> divisor_precedes(
                #[trigger] signed_divisor_list(small, large)[i],
                #[trigger] signed_divisor_list(small, large)[j],
            ),
        forall|x: int|
            #[trigger] signed_divisor_list(small, large).contains(x) <==> (n > 0 && x != 0 && n
                % (abs(x) as int) == 0),
{
    let out = signed_divisor_list(small, large);
    if n == 0 {
        assert(out =~= Seq::<int>::empty());
        return;
    }
    let c = choose|c: int| c > 0 && divisor_scan(n, c, small, large) && n < c * c;
    let count = small.len() + large.len();
    assert(out.len() == 2 * count) by {
        if count > 0 {
            lemma_list_entry(small, large, 0);
        } else {
            assert(out =~= Seq::<int>::empty());
        }
    }
    assert forall|i: int, j: int| 0 <= i < j < out.len() implies divisor_precedes(
        #[trigger] out[i],
        #[trigger] out[j],
    ) by {
        lemma_list_entry(small, large, i);
        lemma_list_entry(small, large, j);
        let p = i / 2;
        let t = j / 2;
        assert(p <= t) by {
            vstd::arithmetic::div_mod::lemma_div_is_ordered(i, j, 2);
        }
        if p < t {
            lemma_pair_magnitudes_increase(n, c, small, large, p, t);
        } else {
            lemma_pair_magnitudes_increase(n, c, small, large, p, p);
            assert(i % 2 == 0 && j % 2 == 1);
        }
        if p < count {
            if p < t {
            } else {
            }
        }
    }
    assert forall|x: int| #[trigger] out.contains(x) implies (x != 0 && n % (abs(x) as int) == 0) by {
        let k = choose|k: int| 0 <= k < out.len() && out[k] == x;
        lemma_list_entry(small, large, k);
        let p = k / 2;
        let m = pair_magnitude(small, large, p);
        lemma_pair_magnitudes_increase(n, c, small, large, p, p);
        assert(abs(x) == m);
        if p < small.len() {
        } else {
            let i = large.len() - 1 - (p - small.len());
            assert(large[i] == m);
        }
    }
    assert forall|x: int| x != 0 && n % (abs(x) as int) == 0 implies #[trigger] out.contains(x) by {
        let e = abs(x) as int;
        let p: int = if e * e <= n {
            lemma_small_square(e, n, c);
            assert(small.contains(e));
            choose|i: int| 0 <= i < small.len() && small[i] == e
        } else {
            vstd::arithmetic::div_mod::lemma_fundamental_div_mod(n, e);
            let f = n / e;
            assert(e * f == n);
            assert(f > 0) by (nonlinear_arith)
                requires
                    e * f == n,
                    n > 0,
                    e > 0,
            ;
            assert(f < e) by (nonlinear_arith)
                requires
                    e * f == n,
                    e * e > n,
                    e > 0,
            ;
            assert(f * f < n) by (nonlinear_arith)
                requires
                    e * f == n,
                    0 < f < e,
            ;
            lemma_small_square(f, n, c);
            assert(n % f == 0) by {
                vstd::arithmetic::div_mod::lemma_mod_multiples_basic(e, f);
                assert(e * f == f * e) by (nonlinear_arith);
            }
            assert(n / f == e) by {
                vstd::arithmetic::div_mod::lemma_div_multiples_vanish(e, f);
                assert(e * f == f * e) by (nonlinear_arith);
            }
            assert(large.contains(e));
            let i = choose|i: int| 0 <= i < large.len() && large[i] == e;
            small.len() + (large.len() - 1 - i)
        };
        assert(pair_magnitude(small, large, p) == e);
        let k = if x > 0 {
            2 * p
        } else {
            2 * p + 1
        };
        lemma_list_entry(small, large, k);
        assert(out[k] == x);
    }
}

/// Point `k` of the evaluation sequence `0, 1, -1, 2, -2, ...`.
pub open spec fn integer_point_value(k: nat) -> int {
    if k == 0 {
        0
    } else if k % 2 == 1 {
        ((k + 1) / 2) as int
    } else {
        -(((k + 1) / 2) as int)
    }
}

/// Different indices give different points.
pub proof fn lemma_integer_point_injective(j: nat, k: nat)
    requires
        j != k,
    ensures
        integer_point_value(j) != integer_point_value(k),
{
}

/// Point `sequence_index` of the evaluation sequence `0, 1, -1, 2, -2, ...`.
pub fn integer_point(sequence_index: &BigUint) -> (r: Result<BigInt, AlgnumError>)
    ensures
        match r {
            Ok(v) => v@ == integer_point_value(sequence_index@),
            Err(e) => resource_failure(e),
        },
{
    if sequence_index.is_zero() {
        return Ok(BigInt::zero());
    }
    let one = match BigUint::one() {
        Ok(v) => v,
        Err(error) => return Err(AlgnumError::Bigint(error)),
    };
    let next = match sequence_index.add(&one) {
        Ok(v) => v,
        Err(error) => return Err(AlgnumError::Bigint(error)),
    };
    let magnitude = match next.shr_bits(1) {
        Ok(v) => v,
        Err(error) => return Err(AlgnumError::Bigint(error)),
    };
    let sign = if sequence_index.bit(0) {
        Sign::Positive
    } else {
        Sign::Negative
    };
    proof {
        vstd::arithmetic::power2::lemma2_to64();
        assert(crate::natural::bit_of(sequence_index@, 0) == (sequence_index@ % 2 == 1)) by {
            assert(vstd::arithmetic::power2::pow2(0) == 1);
        }
    }
    Ok(BigInt::from_sign_magnitude(sign, magnitude))
}

/// Synthetic division by `x - r`: the quotient `q` with `p(x) = (x - r) q(x) + p(r)`.
pub open spec fn synthetic_quotient(p: Seq<int>, r: int) -> Seq<int>
    decreases p.len(),
{
    if p.len() <= 1 {
        Seq::empty()
    } else {
        seq![poly_eval(p.drop_first(), r)] + synthetic_quotient(p.drop_first(), r)
    }
}

/// The remainder theorem: `p(x) = (x - r) q(x) + p(r)` for the synthetic quotient `q`,
/// which has one coefficient fewer and the same leading coefficient.
pub proof fn lemma_synthetic_division(p: Seq<int>, r: int, x: int)
    ensures
        poly_eval(p, x) == (x - r) * poly_eval(synthetic_quotient(p, r), x) + poly_eval(p, r),
        p.len() >= 1 ==> synthetic_quotient(p, r).len() == p.len() - 1,
        p.len() >= 2 ==> synthetic_quotient(p, r)[p.len() - 2] == p[p.len() - 1],
    decreases p.len(),
{
    let q = synthetic_quotient(p, r);
    if p.len() == 0 {
        assert((x - r) * 0 == 0);
    } else if p.len() == 1 {
        assert(p.drop_first().len() == 0);
        assert(poly_eval(p.drop_first(), x) == 0);
        assert(poly_eval(p.drop_first(), r) == 0);
        assert(x * 0 == 0 && r * 0 == 0 && (x - r) * 0 == 0);
    } else {
        let rest = p.drop_first();
        lemma_synthetic_division(rest, r, x);
        let q1 = synthetic_quotient(rest, r);
        let c = poly_eval(rest, r);
        assert(q == seq![c] + q1);
        assert(q.drop_first() =~= q1);
        let e1 = poly_eval(q1, x);
        let ex = poly_eval(rest, x);
        assert(poly_eval(q, x) == c + x * e1);
        assert(ex == (x - r) * e1 + c);
        assert(poly_eval(p, x) == p[0] + x * ex);
        assert(poly_eval(p, r) == p[0] + r * c);
        assert(p[0] + x * ((x - r) * e1 + c) == (x - r) * (c + x * e1) + (p[0] + r * c))
            by (nonlinear_arith);
        if p.len() >= 3 {
            assert(q[p.len() - 2] == q1[rest.len() - 2]);
        } else {
            assert(rest.drop_first().len() == 0);
            assert(poly_eval(rest.drop_first(), r) == 0);
            assert(r * 0 == 0);
            assert(c == rest[0]);
        }
    }
}

/// A nonzero polynomial has fewer distinct roots than coefficients.
pub proof fn lemma_root_bound(p: Seq<int>, roots: Seq<int>)
    requires
        p.len() > 0,
        is_trimmed(p),
        forall|i: int, j: int| 0 <= i < j < roots.len() ==> roots[i] != roots[j],
        forall|i: int| 0 <= i < roots.len() ==> poly_eval(p, #[trigger] roots[i]) == 0,
    ensures
        roots.len() < p.len(),
    decreases roots.len(),
{
    if roots.len() > 0 {
        let r = roots[0];
        if p.len() == 1 {
            assert(p.drop_first().len() == 0);
            assert(poly_eval(p.drop_first(), r) == 0);
            assert(r * 0 == 0);
            assert(poly_eval(p, r) == p[0]);
            assert(false);
        }
        let q = synthetic_quotient(p, r);
        lemma_synthetic_division(p, r, r);
        let rest = roots.drop_first();
        assert forall|i: int| 0 <= i < rest.len() implies poly_eval(q, #[trigger] rest[i]) == 0 by {
            let x = rest[i];
            assert(x == roots[i + 1]);
            assert(poly_eval(p, x) == 0);
            lemma_synthetic_division(p, r, x);
            assert(x != r);
            let e = poly_eval(q, x);
            assert((x - r) * e == 0);
            assert(e == 0) by (nonlinear_arith)
                requires
                    (x - r) * e == 0,
                    x != r,
            ;
        }
        assert forall|i: int, j: int| 0 <= i < j < rest.len() implies rest[i] != rest[j] by {
            assert(rest[i] == roots[i + 1]);
            assert(rest[j] == roots[j + 1]);
        }
        lemma_root_bound(q, rest);
    }
}

/// The evaluation points with nonzero values among the first `k` points of the sequence,
/// in order.
pub open spec fn nonroot_points(p: Seq<int>, k: nat) -> Seq<int>
    decreases k,
{
    if k == 0 {
        Seq::empty()
    } else {
        let before = nonroot_points(p, (k - 1) as nat);
        if poly_eval(p, integer_point_value((k - 1) as nat)) != 0 {
            before.push(integer_point_value((k - 1) as nat))
        } else {
            before
        }
    }
}

/// The points among the first `k` whose values are zero.
pub open spec fn root_points(p: Seq<int>, k: nat) -> Seq<int>
    decreases k,
{
    if k == 0 {
        Seq::empty()
    } else {
        let before = root_points(p, (k - 1) as nat);
        if poly_eval(p, integer_point_value((k - 1) as nat)) == 0 {
            before.push(integer_point_value((k - 1) as nat))
        } else {
            before
        }
    }
}

proof fn lemma_point_split(p: Seq<int>, k: nat)
    ensures
        nonroot_points(p, k).len() + root_points(p, k).len() == k,
        forall|i: int|
            0 <= i < root_points(p, k).len() ==> poly_eval(p, #[trigger] root_points(p, k)[i]) == 0,
        forall|i: int|
            0 <= i < root_points(p, k).len() ==> exists|j: nat|
                j < k && #[trigger] root_points(p, k)[i] == integer_point_value(j),
        forall|i: int, j: int|
            0 <= i < j < root_points(p, k).len() ==> root_points(p, k)[i] != root_points(p, k)[j],
    decreases k,
{
    if k > 0 {
        let m = (k - 1) as nat;
        lemma_point_split(p, m);
        let before = root_points(p, m);
        let x = integer_point_value(m);
        if poly_eval(p, x) == 0 {
            assert(root_points(p, k) == before.push(x));
            assert forall|i: int| 0 <= i < before.len() implies before[i] != x by {
                let j = choose|j: nat| j < m && #[trigger] before[i] == integer_point_value(j);
                lemma_integer_point_injective(j, m);
            }
            assert forall|i: int|
                0 <= i < root_points(p, k).len() implies exists|j: nat|
                j < k && #[trigger] root_points(p, k)[i] == integer_point_value(j) by {
                if i < before.len() {
                    let j = choose|j: nat| j < m && #[trigger] before[i] == integer_point_value(j);
                    assert(root_points(p, k)[i] == before[i]);
                } else {
                    assert(root_points(p, k)[i] == integer_point_value(m));
                }
            }
        }
    }
}

/// The first `degree + 1` points of the sequence `0, 1, -1, 2, -2, ...` at which the
/// nonzero polynomial does not vanish, and its values there.
pub fn kronecker_points(polynomial: &Polynomial, degree: usize) -> (r: Result<
    (Vec<BigInt>, Vec<BigInt>),
    AlgnumError,
>)
    requires
        polynomial@.len() > 0,
    ensures
        match r {
            Ok((points, values)) => points@.len() == degree + 1 && values@.len() == degree + 1
                && (exists|k: nat|
                int_values(points@) == nonroot_points(polynomial@, k)) && forall|i: int|
                0 <= i < values@.len() ==> #[trigger] values@[i]@ == poly_eval(
                    polynomial@,
                    points@[i]@,
                ),
            Err(e) => resource_failure(e),
        },
{
    proof {
        use_type_invariant(polynomial);
    }
    let ghost p = polynomial@;
    let count = match degree.checked_add(1) {
        Some(v) => v,
        None => return Err(crate::substitution::coefficient_count_overflow()),
    };
    let mut points: Vec<BigInt> = Vec::new();
    let mut values: Vec<BigInt> = Vec::new();
    reserve_elements(&mut points, count, AllocationResource::EvaluationPoints)?;
    reserve_elements(&mut values, count, AllocationResource::EvaluationPoints)?;
    let mut sequence_index = BigUint::zero();
    let one = match BigUint::one() {
        Ok(v) => v,
        Err(error) => return Err(AlgnumError::Bigint(error)),
    };
    proof {
        assert(int_values(points@) =~= nonroot_points(p, 0));
    }
    while points.len() < count
        invariant
            p == polynomial@,
            p.len() > 0,
            is_trimmed(p),
            one@ == 1,
            points@.len() == values@.len(),
            points@.len() <= count,
            int_values(points@) == nonroot_points(p, sequence_index@),
            forall|i: int| 0 <= i < values@.len() ==> #[trigger] values@[i]@ == poly_eval(
                p,
                points@[i]@,
            ),
            sequence_index@ == points@.len() + root_points(p, sequence_index@).len(),
            root_points(p, sequence_index@).len() < p.len(),
        decreases count + p.len() - sequence_index@,
    {
        let ghost k = sequence_index@;
        let point = integer_point(&sequence_index)?;
        let value = match polynomial.evaluate_bigint(&point) {
            Ok(v) => v,
            Err(error) => return Err(error),
        };
        let ghost before = int_values(points@);
        if !value.is_zero() {
            points.push(point);
            values.push(value);
            proof {
                assert(int_values(points@) =~= before.push(integer_point_value(k)));
            }
        }
        sequence_index = match sequence_index.add(&one) {
            Ok(v) => v,
            Err(error) => return Err(AlgnumError::Bigint(error)),
        };
        proof {
            lemma_point_split(p, sequence_index@);
            lemma_root_bound(p, root_points(p, sequence_index@));
        }
    }
    Ok((points, values))
}


/// `pos` is the last position whose digit is below its column's largest index.
pub open spec fn is_last_growable(digits: Seq<usize>, sizes: Seq<nat>, pos: int) -> bool {
    &&& 0 <= pos < digits.len()
    &&& digits[pos] + 1 < sizes[pos]
    &&& forall|q: int| pos < q < digits.len() ==> #[trigger] digits[q] + 1 >= sizes[q]
}

/// The column sizes.
pub open spec fn column_sizes(columns: Seq<Vec<BigInt>>) -> Seq<nat> {
    Seq::new(columns.len(), |i: int| columns[i]@.len())
}

/// The next tuple of digits of the product of the columns, the last digit changing
/// first; after the last tuple the digits return to zero and the answer is `false`.
pub fn next_cartesian_digits(digits: &mut Vec<usize>, columns: &[Vec<BigInt>]) -> (r: bool)
    requires
        old(digits)@.len() == columns@.len(),
        forall|i: int| 0 <= i < columns@.len() ==> #[trigger] old(digits)@[i] < columns@[i]@.len(),
    ensures
        final(digits)@.len() == old(digits)@.len(),
        r == exists|pos: int| is_last_growable(old(digits)@, column_sizes(columns@), pos),
        r ==> exists|pos: int|
            is_last_growable(old(digits)@, column_sizes(columns@), pos) && (forall|q: int|
                0 <= q < pos ==> #[trigger] final(digits)@[q] == old(digits)@[q]) && final(digits)@[pos]
                == old(digits)@[pos] + 1 && (forall|q: int|
                pos < q < final(digits)@.len() ==> #[trigger] final(digits)@[q] == 0),
        !r ==> forall|q: int| 0 <= q < final(digits)@.len() ==> #[trigger] final(digits)@[q] == 0,
{
    let ghost start = digits@;
    let ghost sizes = column_sizes(columns@);
    let mut position = digits.len();
    loop
        invariant
            start == old(digits)@,
            digits@.len() == start.len(),
            start.len() == columns@.len(),
            sizes == column_sizes(columns@),
            position <= digits@.len(),
            forall|q: int| 0 <= q < position ==> #[trigger] digits@[q] == start[q],
            forall|q: int| position <= q < digits@.len() ==> #[trigger] digits@[q] == 0,
            forall|q: int| position <= q < start.len() ==> #[trigger] start[q] + 1 >= sizes[q],
            forall|i: int| 0 <= i < columns@.len() ==> #[trigger] start[i] < columns@[i]@.len(),
        decreases position,
    {
        if position == 0 {
            proof {
                assert forall|pos: int| !is_last_growable(start, sizes, pos) by {
                    if 0 <= pos < start.len() {
                        assert(start[pos] + 1 >= sizes[pos]);
                    }
                }
            }
            return false;
        }
        position = position - 1;
        assert(digits@[position as int] == start[position as int]);
        let size = columns[position].len();
        let current = digits[position];
        if current < size - 1 {
            digits.set(position, current + 1);
            proof {
                assert(is_last_growable(start, sizes, position as int));
                let pos = position as int;
                assert(is_last_growable(old(digits)@, column_sizes(columns@), pos) && (forall|q: int|
                    0 <= q < pos ==> #[trigger] digits@[q] == old(digits)@[q]) && digits@[pos]
                    == old(digits)@[pos] + 1 && (forall|q: int|
                    pos < q < digits@.len() ==> #[trigger] digits@[q] == 0));
            }
            return true;
        }
        digits.set(position, 0);
    }
}

/// The first tuple of digits of the product of the columns, all zero; `None` when a
/// column is empty and the product has no tuple.
pub fn cartesian_start(columns: &[Vec<BigInt>]) -> (r: Result<Option<Vec<usize>>, AlgnumError>)
    ensures
        match r {
            Ok(Some(digits)) => (forall|i: int| 0 <= i < columns@.len() ==> #[trigger] columns@[i]@.len() > 0)
                && digits@ == Seq::new(columns@.len(), |i: int| 0usize),
            Ok(None) => exists|i: int| 0 <= i < columns@.len() && #[trigger] columns@[i]@.len() == 0,
            Err(e) => e == AlgnumError::AllocationFailure {
                resource: AllocationResource::ProductDigits,
                requested: columns@.len() as usize,
            },
        },
{
    let mut digits: Vec<usize> = Vec::new();
    reserve_elements(&mut digits, columns.len(), AllocationResource::ProductDigits)?;
    let mut index: usize = 0;
    while index < columns.len()
        invariant
            index <= columns@.len(),
            digits@ == Seq::new(index as nat, |i: int| 0usize),
            forall|i: int| 0 <= i < index ==> #[trigger] columns@[i]@.len() > 0,
        decreases columns@.len() - index,
    {
        if columns[index].len() == 0 {
            return Ok(None);
        }
        digits.push(0);
        index = index + 1;
        proof {
            assert(digits@ =~= Seq::new(index as nat, |i: int| 0usize));
        }
    }
    Ok(Some(digits))
}

/// The signed divisors of each value, in order.
pub fn divisor_columns(values: &[BigInt]) -> (r: Result<Vec<Vec<BigInt>>, AlgnumError>)
    ensures
        match r {
            Ok(columns) => columns@.len() == values@.len() && forall|k: int|
                0 <= k < values@.len() ==> {
                    let column = int_values(#[trigger] columns@[k]@);
                    &&& forall|i: int, j: int|
                        0 <= i < j < column.len() ==> divisor_precedes(column[i], column[j])
                    &&& forall|x: int|
                        column.contains(x) <==> (abs(values@[k]@) > 0 && x != 0 && abs(
                            values@[k]@,
                        ) % abs(x) == 0)
                },
            Err(e) => resource_failure(e),
        },
{
    let mut columns: Vec<Vec<BigInt>> = Vec::new();
    reserve_elements(&mut columns, values.len(), AllocationResource::Divisors)?;
    let mut index: usize = 0;
    while index < values.len()
        invariant
            index <= values@.len(),
            columns@.len() == index,
            forall|k: int|
                0 <= k < index ==> {
                    let column = int_values(#[trigger] columns@[k]@);
                    &&& forall|i: int, j: int|
                        0 <= i < j < column.len() ==> divisor_precedes(column[i], column[j])
                    &&& forall|x: int|
                        column.contains(x) <==> (abs(values@[k]@) > 0 && x != 0 && abs(
                            values@[k]@,
                        ) % abs(x) == 0)
                },
        decreases values@.len() - index,
    {
        let column = signed_divisors(&values[index])?;
        let ghost before = columns@;
        columns.push(column);
        proof {
            assert forall|k: int| 0 <= k < index + 1 implies {
                let column = int_values(#[trigger] columns@[k]@);
                &&& forall|i: int, j: int|
                    0 <= i < j < column.len() ==> divisor_precedes(column[i], column[j])
                &&& forall|x: int|
                    column.contains(x) <==> (abs(values@[k]@) > 0 && x != 0 && abs(values@[k]@)
                        % abs(x) == 0)
            } by {
                if k < index {
                    assert(columns@[k] == before[k]);
                }
            }
        }
        index = index + 1;
    }
    Ok(columns)
}

} // verus!
