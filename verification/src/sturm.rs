//! Sturm sequences of integer polynomials: counting the real roots between two dyadic
//! points by sign variations, and splitting an interval around its roots.
use crate::algnum_error::{reserve_elements, resource_failure, AlgnumError, AllocationResource};
use crate::dyadic::{dyadic_le, is_greater, Dyadic};
use crate::error::BigintError;
use crate::integer::{BigInt, Sign};
use crate::natural::BigUint;
use crate::polynomial::{
    all_reduced, int_values, product_failure, is_trimmed_rat, lemma_remainder_shape, poly_eval_rat,
    primitive_of, rat_derivative, rat_div_rem, scaled_integers, trim_int, Polynomial,
    RationalPolynomial,
};
use crate::rational::is_reduced;
use crate::resultant::poly_views;
use crate::rational::{reduced_form, RawRational, ReducedRational};
use vstd::arithmetic::power2::pow2;
use vstd::prelude::*;

verus! {

/// The rational value of the dyadic `d.0 / 2^d.1`, in lowest terms.
pub open spec fn dyadic_value(d: (int, nat)) -> (int, nat) {
    reduced_form(d.0, pow2(d.1))
}

/// `a < b` for dyadics `a.0 / 2^a.1` and `b.0 / 2^b.1`.
pub open spec fn dyadic_lt(a: (int, nat), b: (int, nat)) -> bool {
    !dyadic_le(b, a)
}

/// `-1`, `0` or `1` by the sign of `x`.
pub open spec fn signum(x: int) -> int {
    if x > 0 {
        1
    } else if x < 0 {
        -1
    } else {
        0
    }
}

/// The number of sign changes along `values`, zeros skipped, after a last nonzero sign
/// `previous` (zero for none).
pub open spec fn sign_changes(values: Seq<int>, previous: int) -> int
    decreases values.len(),
{
    if values.len() == 0 {
        0
    } else {
        let s = signum(values[0]);
        if s == 0 {
            sign_changes(values.drop_first(), previous)
        } else {
            (if previous != 0 && previous != s {
                1int
            } else {
                0int
            }) + sign_changes(values.drop_first(), s)
        }
    }
}

/// The numerators, hence the signs, of the values of the polynomials at `x`.
pub open spec fn values_at(polynomials: Seq<Seq<int>>, x: (int, nat)) -> Seq<int> {
    Seq::new(polynomials.len(), |k: int| poly_eval_rat(polynomials[k], x).0)
}

/// The number of sign variations of the sequence at the dyadic point `d`.
pub open spec fn variations(polynomials: Seq<Seq<int>>, d: (int, nat)) -> int {
    sign_changes(values_at(polynomials, dyadic_value(d)), 0)
}

/// The first polynomial of the sequence vanishes at the dyadic point `d`.
pub open spec fn is_root_at(polynomials: Seq<Seq<int>>, d: (int, nat)) -> bool {
    poly_eval_rat(polynomials[0], dyadic_value(d)).0 == 0
}

/// The number of roots in `(lower, upper)` that the sequence reports: defined when the
/// endpoints are ordered non-roots and the variations do not increase.
pub open spec fn counts_roots(polynomials: Seq<Seq<int>>, lower: (int, nat), upper: (int, nat)) -> bool {
    &&& dyadic_lt(lower, upper)
    &&& !is_root_at(polynomials, lower)
    &&& !is_root_at(polynomials, upper)
    &&& variations(polynomials, lower) >= variations(polynomials, upper)
}

proof fn lemma_sign_changes_bound(values: Seq<int>, previous: int)
    ensures
        0 <= sign_changes(values, previous) <= values.len(),
    decreases values.len(),
{
    if values.len() > 0 {
        lemma_sign_changes_bound(values.drop_first(), previous);
        lemma_sign_changes_bound(values.drop_first(), signum(values[0]));
    }
}

/// The search for a split point around a root at the midpoint starts at this exponent.
pub fn initial_search_exponent() -> (r: u32)
    ensures
        r == 1,
{
    1
}

/// The next exponent of the split point search, if any.
pub fn next_search_exponent(exponent: u32) -> (r: Option<u32>)
    ensures
        exponent < u32::MAX ==> r == Some((exponent + 1) as u32),
        exponent == u32::MAX ==> r is None,
{
    exponent.checked_add(1)
}

/// An interval with exactly one root is isolated.
pub fn is_isolated_root_count(count: usize) -> (r: bool)
    ensures
        r == (count == 1),
{
    count == 1
}

/// The dyadic value as a reduced rational.
pub(crate) fn dyadic_rational(value: &Dyadic) -> (r: Result<ReducedRational, AlgnumError>)
    ensures
        match r {
            Ok(v) => v@ == dyadic_value(value@),
            Err(e) => resource_failure(e),
        },
{
    let one = match BigUint::one() {
        Ok(v) => v,
        Err(error) => return Err(AlgnumError::Bigint(error)),
    };
    let denominator = match one.shl_bits(value.exponent() as usize) {
        Ok(v) => v,
        Err(error) => return Err(AlgnumError::Bigint(error)),
    };
    let numerator = match value.integer().try_clone() {
        Ok(v) => v,
        Err(error) => return Err(AlgnumError::Bigint(error)),
    };
    proof {
        vstd::arithmetic::power2::lemma_pow2_pos(value@.1);
    }
    let reduction = match RawRational::new(numerator, denominator).reduce() {
        Ok(v) => v,
        Err(error) => return Err(AlgnumError::Bigint(error)),
    };
    Ok(reduction.into_reduced())
}

/// The negated integer polynomial.
fn negate_integer_polynomial(polynomial: &Polynomial) -> (r: Result<Polynomial, AlgnumError>)
    ensures
        match r {
            Ok(v) => v@ == Seq::new(polynomial@.len(), |i: int| -polynomial@[i]),
            Err(e) => crate::polynomial::integer_failure(e),
        },
{
    proof {
        use_type_invariant(polynomial);
    }
    let source = polynomial.coefficients();
    let mut coefficients: Vec<BigInt> = Vec::new();
    reserve_elements(&mut coefficients, source.len(), AllocationResource::PolynomialCoefficients)?;
    let mut index: usize = 0;
    while index < source.len()
        invariant
            int_values(source@) == polynomial@,
            index <= source@.len(),
            coefficients@.len() == index,
            forall|k: int| 0 <= k < index ==> #[trigger] coefficients@[k]@ == -source@[k]@,
        decreases source@.len() - index,
    {
        let negated = match source[index].negated() {
            Ok(v) => v,
            Err(error) => return Err(AlgnumError::Bigint(error)),
        };
        coefficients.push(negated);
        index = index + 1;
    }
    let ghost target = Seq::new(polynomial@.len(), |i: int| -polynomial@[i]);
    proof {
        assert(int_values(coefficients@) =~= target);
        crate::polynomial::lemma_trim_trimmed(target);
    }
    Ok(Polynomial::from_coefficients(coefficients))
}

/// The negated rational polynomial.
fn negate_rational_polynomial(polynomial: &RationalPolynomial) -> (r: Result<
    RationalPolynomial,
    AlgnumError,
>)
    ensures
        match r {
            Ok(v) => v@ == rat_negated(polynomial@),
            Err(e) => crate::polynomial::integer_failure(e),
        },
{
    proof {
        use_type_invariant(polynomial);
    }
    let source = polynomial.coefficients();
    let mut coefficients: Vec<ReducedRational> = Vec::new();
    reserve_elements(&mut coefficients, source.len(), AllocationResource::RationalCoefficients)?;
    let mut index: usize = 0;
    while index < source.len()
        invariant
            crate::polynomial::rat_values(source@) == polynomial@,
            index <= source@.len(),
            coefficients@.len() == index,
            forall|k: int|
                0 <= k < index ==> #[trigger] coefficients@[k]@ == reduced_form(
                    -source@[k]@.0,
                    source@[k]@.1,
                ),
            forall|k: int| 0 <= k < index ==> #[trigger] source@[k]@.1 > 0,
        decreases source@.len() - index,
    {
        let coefficient = &source[index];
        proof {
            use_type_invariant(coefficient);
        }
        let numerator = match coefficient.numerator().negated() {
            Ok(v) => v,
            Err(error) => return Err(AlgnumError::Bigint(error)),
        };
        let denominator = match coefficient.denominator().try_clone() {
            Ok(v) => v,
            Err(error) => return Err(AlgnumError::Bigint(error)),
        };
        let reduction = match RawRational::new(numerator, denominator).reduce() {
            Ok(v) => v,
            Err(error) => return Err(AlgnumError::Bigint(error)),
        };
        coefficients.push(reduction.into_reduced());
        index = index + 1;
    }
    let result = RationalPolynomial::from_coefficients(coefficients);
    proof {
        assert(crate::polynomial::is_trimmed_rat(crate::polynomial::rat_values(coefficients@)))
            by {
            if source@.len() > 0 {
                let last = (source@.len() - 1) as int;
                crate::rational::lemma_reduced_form(-source@[last]@.0, source@[last]@.1);
            }
        }
        crate::polynomial::lemma_trim_rat(crate::polynomial::rat_values(coefficients@));
        assert(result@ =~= rat_negated(polynomial@));
    }
    Ok(result)
}

/// The value of a sign: `-1`, `0` or `1`.
pub open spec fn sign_value(s: Sign) -> int {
    match s {
        Sign::Negative => -1,
        Sign::Zero => 0,
        Sign::Positive => 1,
    }
}

/// The Sturm sequence of a polynomial of positive degree: its primitive part, then
/// primitive integer polynomials with the signs of its derivative and of the negated
/// remainders of Euclid's algorithm.
#[derive(Debug, Eq, PartialEq)]
pub struct SturmSequence {
    polynomials: Vec<Polynomial>,
}

impl View for SturmSequence {
    type V = Seq<Seq<int>>;

    closed spec fn view(&self) -> Seq<Seq<int>> {
        Seq::new(self.polynomials@.len(), |k: int| self.polynomials@[k]@)
    }
}

impl SturmSequence {
    /// At least one polynomial, the first of degree one or more: holds of every value
    /// of this type.
    #[verifier::type_invariant]
    closed spec fn well_formed(self) -> bool {
        &&& self.polynomials@.len() >= 1
        &&& self.polynomials@[0]@.len() >= 2
    }

    /// The polynomials, the first one first.
    pub fn polynomials(&self) -> (r: &[Polynomial])
        ensures
            Seq::new(r@.len(), |k: int| r@[k]@) == self@,
            self@.len() >= 1,
            self@[0].len() >= 2,
    {
        proof {
            use_type_invariant(self);
            assert(Seq::new(self.polynomials@.len(), |k: int| self.polynomials@[k]@) =~= self@);
        }
        self.polynomials.as_slice()
    }

    /// Whether the first polynomial vanishes at `point`.
    pub fn is_root(&self, point: &Dyadic) -> (r: Result<bool, AlgnumError>)
        ensures
            match r {
                Ok(b) => b == is_root_at(self@, point@),
                Err(e) => resource_failure(e),
            },
    {
        proof {
            use_type_invariant(self);
        }
        let value = dyadic_rational(point)?;
        let first = &self.polynomials[0];
        let result = first.evaluate_rational(&value)?;
        Ok(result.is_zero())
    }

    /// The number of sign changes of the values of the sequence at `point`, zeros skipped.
    pub fn variations_at(&self, point: &Dyadic) -> (r: Result<usize, AlgnumError>)
        ensures
            match r {
                Ok(v) => v == variations(self@, point@),
                Err(e) => resource_failure(e),
            },
    {
        let ghost polys = self@;
        let value = dyadic_rational(point)?;
        let ghost values = values_at(polys, dyadic_value(point@));
        let mut previous = Sign::Zero;
        let mut count: usize = 0;
        let mut index: usize = 0;
        proof {
            assert(values.subrange(0, values.len() as int) =~= values);
        }
        while index < self.polynomials.len()
            invariant
                polys == self@,
                values == values_at(polys, dyadic_value(point@)),
                value@ == dyadic_value(point@),
                index <= self.polynomials@.len(),
                values.len() == self.polynomials@.len(),
                count <= index,
                count + sign_changes(
                    values.subrange(index as int, values.len() as int),
                    sign_value(previous),
                ) == sign_changes(values, 0),
            decreases self.polynomials@.len() - index,
        {
            let evaluated = self.polynomials[index].evaluate_rational(&value)?;
            let sign = evaluated.numerator().sign();
            proof {
                let rest = values.subrange(index as int, values.len() as int);
                assert(rest[0] == values[index as int]);
                assert(values[index as int] == poly_eval_rat(self.polynomials@[index as int]@, value@).0);
                assert(rest.drop_first() =~= values.subrange(index + 1, values.len() as int));
                assert(sign_value(sign) == signum(values[index as int]));
            }
            if sign != Sign::Zero {
                if previous != Sign::Zero && previous != sign {
                    count = count + 1;
                }
                previous = sign;
            }
            index = index + 1;
        }
        Ok(count)
    }

    /// The number of roots strictly between `lower` and `upper`, by Sturm's theorem; the
    /// endpoints must be ordered non-roots.
    pub fn root_count(&self, lower: &Dyadic, upper: &Dyadic) -> (r: Result<usize, AlgnumError>)
        ensures
            match r {
                Ok(count) => counts_roots(self@, lower@, upper@) && count == variations(
                    self@,
                    lower@,
                ) - variations(self@, upper@),
                Err(e) => resource_failure(e) || (e == AlgnumError::InvalidIsolation
                    && !counts_roots(self@, lower@, upper@)),
            },
    {
        if !is_greater(upper, lower) {
            return Err(AlgnumError::InvalidIsolation);
        }
        if self.is_root(lower)? || self.is_root(upper)? {
            return Err(AlgnumError::InvalidIsolation);
        }
        let lower_variations = self.variations_at(lower)?;
        let upper_variations = self.variations_at(upper)?;
        match lower_variations.checked_sub(upper_variations) {
            Some(count) => Ok(count),
            None => Err(AlgnumError::InvalidIsolation),
        }
    }
}

/// The endpoints and root count of a candidate interval.
pub open spec fn child_view(c: (Dyadic, Dyadic, usize)) -> ((int, nat), (int, nat), nat) {
    (c.0@, c.1@, c.2 as nat)
}

/// The endpoints and root counts of candidate intervals.
pub open spec fn child_views(s: Seq<(Dyadic, Dyadic, usize)>) -> Seq<((int, nat), (int, nat), nat)> {
    Seq::new(s.len(), |i: int| child_view(s[i]))
}

/// The candidates with at least one root, in order.
pub open spec fn nonempty_children(s: Seq<((int, nat), (int, nat), nat)>) -> Seq<
    ((int, nat), (int, nat), nat),
>
    decreases s.len(),
{
    if s.len() == 0 {
        s
    } else {
        let rest = nonempty_children(s.drop_last());
        if s.last().2 != 0 {
            rest.push(s.last())
        } else {
            rest
        }
    }
}

/// The sum of the root counts.
pub open spec fn count_sum(s: Seq<((int, nat), (int, nat), nat)>) -> int
    decreases s.len(),
{
    if s.len() == 0 {
        0
    } else {
        count_sum(s.drop_last()) + s.last().2
    }
}

/// The mean of two dyadics, in normal form, as `Dyadic::midpoint` computes it.
pub open spec fn dyadic_midpoint(a: (int, nat), b: (int, nat)) -> (int, nat) {
    let c = if a.1 >= b.1 {
        a.1
    } else {
        b.1
    };
    crate::dyadic::dyadic_normal(
        a.0 * pow2((c - a.1) as nat) + b.0 * pow2((c - b.1) as nat),
        c + 1,
    )
}

/// A split of `[lower, upper]`: intervals in increasing order inside it, each with
/// endpoints that are not roots and a positive root count given by the sequence, the
/// counts adding up to `expected`.
pub open spec fn is_split(
    polynomials: Seq<Seq<int>>,
    lower: (int, nat),
    upper: (int, nat),
    expected: int,
    children: Seq<((int, nat), (int, nat), nat)>,
) -> bool {
    &&& forall|k: int|
        0 <= k < children.len() ==> {
            let c = #[trigger] children[k];
            &&& c.2 > 0
            &&& counts_roots(polynomials, c.0, c.1)
            &&& c.2 == variations(polynomials, c.0) - variations(polynomials, c.1)
            &&& dyadic_le(lower, c.0)
            &&& dyadic_le(c.1, upper)
        }
    &&& forall|i: int, j: int|
        0 <= i < j < children.len() ==> dyadic_le(#[trigger] children[i].1, #[trigger] children[j].0)
    &&& count_sum(children) == expected
}

/// The sign variations do not increase from left to right between non-roots in
/// `[lower, upper]`, as Sturm's theorem has it for a Sturm sequence.
pub open spec fn variations_monotone(polynomials: Seq<Seq<int>>, lower: (int, nat), upper: (int, nat)) -> bool {
    forall|a: (int, nat), b: (int, nat)|
        dyadic_le(lower, a) && dyadic_lt(a, b) && dyadic_le(b, upper) && !is_root_at(polynomials, a)
            && !is_root_at(polynomials, b) ==> #[trigger] variations(polynomials, a) >= #[trigger] variations(
            polynomials,
            b,
        )
}

/// Success, or a failure for want of resources.
pub open spec fn ok_or_resource<T>(r: Result<T, AlgnumError>) -> bool {
    match r {
        Ok(_) => true,
        Err(e) => resource_failure(e),
    }
}

/// The sum (`negate` false) or difference of two dyadics, as `Dyadic::add` and
/// `Dyadic::sub` compute it.
pub open spec fn dyadic_combine(a: (int, nat), b: (int, nat), negate: bool) -> (int, nat) {
    let c = if a.1 >= b.1 {
        a.1
    } else {
        b.1
    };
    let scaled = b.0 * pow2((c - b.1) as nat);
    crate::dyadic::dyadic_normal(
        a.0 * pow2((c - a.1) as nat) + if negate {
            -scaled
        } else {
            scaled
        },
        c,
    )
}

/// The points `mid - 2^-e` and `mid + 2^-e` that the search around a root midpoint
/// tries.
pub open spec fn offset_points(mid: (int, nat), e: u32) -> ((int, nat), (int, nat)) {
    let offset = crate::dyadic::dyadic_normal(1, e as nat);
    (dyadic_combine(mid, offset, true), dyadic_combine(mid, offset, false))
}

/// The search around the root midpoint of `[lower, upper]` succeeds at distance `2^-e`:
/// both points lie strictly inside and are not roots, the three parts have root counts,
/// the middle one holds one root and the total is `expected`.
pub open spec fn search_succeeds_at(
    polynomials: Seq<Seq<int>>,
    lower: (int, nat),
    upper: (int, nat),
    expected: int,
    e: u32,
) -> bool {
    let (l, g) = offset_points(dyadic_midpoint(lower, upper), e);
    &&& dyadic_lt(lower, l)
    &&& dyadic_lt(g, upper)
    &&& !is_root_at(polynomials, l)
    &&& !is_root_at(polynomials, g)
    &&& counts_roots(polynomials, lower, l)
    &&& counts_roots(polynomials, l, g)
    &&& counts_roots(polynomials, g, upper)
    &&& variations(polynomials, l) - variations(polynomials, g) == 1
    &&& variations(polynomials, lower) - variations(polynomials, upper) == expected
}

/// Splitting `[lower, upper]` runs past the `u32` exponents: the midpoint needs a larger
/// one, or the midpoint is a root and the search around it succeeds at no distance
/// `2^-e` with `1 <= e <= u32::MAX`.
pub open spec fn split_overflows(
    polynomials: Seq<Seq<int>>,
    lower: (int, nat),
    upper: (int, nat),
    expected: int,
) -> bool {
    ||| larger_exponent(lower, upper) + 1 > u32::MAX
    ||| (is_root_at(polynomials, dyadic_midpoint(lower, upper)) && forall|e: u32|
        1 <= e ==> !#[trigger] search_succeeds_at(polynomials, lower, upper, expected, e))
}

/// The call failed with `expected`, or for want of resources.
pub open spec fn refused_as<T>(r: Result<T, AlgnumError>, expected: AlgnumError) -> bool {
    match r {
        Ok(_) => false,
        Err(e) => e == expected || resource_failure(e),
    }
}

/// The larger exponent of two dyadics.
pub open spec fn larger_exponent(a: (int, nat), b: (int, nat)) -> nat {
    if a.1 >= b.1 {
        a.1
    } else {
        b.1
    }
}

/// When `split_interval` refuses with an error of its own: no target root only when the
/// midpoint is no root and the two halves do not hold the expected count; an invalid
/// isolation only when `[lower, upper]` does not count roots or its variations increase
/// somewhere; an exponent overflow only past `u32` or when the midpoint is a root.
pub open spec fn split_refusal(
    polynomials: Seq<Seq<int>>,
    lower: (int, nat),
    upper: (int, nat),
    expected: int,
    e: AlgnumError,
) -> bool {
    &&& e is NoTargetRoot ==> counts_roots(polynomials, lower, upper) && !is_root_at(
        polynomials,
        dyadic_midpoint(lower, upper),
    ) && variations(polynomials, lower) - variations(polynomials, upper) != expected
    &&& e is InvalidIsolation ==> !counts_roots(polynomials, lower, upper) || !variations_monotone(
        polynomials,
        lower,
        upper,
    )
    &&& (e matches AlgnumError::Bigint(b) && b is ExponentOverflow) ==> split_overflows(
        polynomials,
        lower,
        upper,
        expected,
    )
}

/// A child interval that is not the whole of `[lower, upper]`.
pub open spec fn proper_child(lower: (int, nat), upper: (int, nat), c: ((int, nat), (int, nat), nat)) -> bool {
    dyadic_lt(lower, c.0) || dyadic_lt(c.1, upper)
}

/// Keeps the candidate intervals that hold at least one root.
fn interval_children(candidates: Vec<(Dyadic, Dyadic, usize)>) -> (r: Result<
    Vec<(Dyadic, Dyadic, usize)>,
    AlgnumError,
>)
    ensures
        match r {
            Ok(v) => child_views(v@) == nonempty_children(child_views(candidates@)),
            Err(e) => resource_failure(e),
        },
{
    let mut retained: usize = 0;
    let mut index: usize = 0;
    while index < candidates.len()
        invariant
            index <= candidates@.len(),
            retained <= index,
        decreases candidates@.len() - index,
    {
        if candidates[index].2 != 0 {
            retained = retained + 1;
        }
        index = index + 1;
    }
    let mut children: Vec<(Dyadic, Dyadic, usize)> = Vec::new();
    reserve_elements(&mut children, retained, AllocationResource::RootIntervals)?;
    let ghost all = child_views(candidates@);
    let mut rest = candidates;
    let ghost mut taken: int = 0;
    proof {
        assert(all.subrange(0, 0) =~= Seq::<((int, nat), (int, nat), nat)>::empty());
    }
    while rest.len() > 0
        invariant
            0 <= taken <= all.len(),
            rest@.len() == all.len() - taken,
            child_views(rest@) == all.subrange(taken, all.len() as int),
            child_views(children@) == nonempty_children(all.subrange(0, taken)),
        decreases rest@.len(),
    {
        let ghost before = rest@;
        let candidate = rest.remove(0);
        proof {
            assert(candidate == before[0]);
            assert(child_views(before)[0] == all.subrange(taken, all.len() as int)[0]);
            assert(child_view(candidate) == all[taken]);
            assert(child_views(rest@) =~= all.subrange(taken + 1, all.len() as int)) by {
                assert forall|i: int| 0 <= i < rest@.len() implies child_views(rest@)[i]
                    == all.subrange(taken + 1, all.len() as int)[i] by {
                    assert(rest@[i] == before[i + 1]);
                    assert(child_views(before)[i + 1] == all.subrange(taken, all.len() as int)[i
                        + 1]);
                }
            }
            assert(all.subrange(0, taken + 1).drop_last() =~= all.subrange(0, taken));
            assert(all.subrange(0, taken + 1).last() == all[taken]);
        }
        let ghost previous = children@;
        if candidate.2 != 0 {
            children.push(candidate);
            proof {
                assert(child_views(children@) =~= child_views(previous).push(child_view(candidate)));
            }
        }
        proof {
            taken = taken + 1;
        }
    }
    proof {
        assert(all.subrange(0, all.len() as int) =~= all);
    }
    Ok(children)
}

/// A split failure: of resources, of the sequence's counts, of an interval that does
/// not hold the expected roots, or of a search point past the exponent range.
pub open spec fn split_failure(e: AlgnumError) -> bool {
    ||| resource_failure(e)
    ||| e is InvalidIsolation
    ||| e is NoTargetRoot
    ||| e matches AlgnumError::Bigint(b) && b is ExponentOverflow
}

proof fn lemma_dyadic_le_refl(a: (int, nat))
    ensures
        dyadic_le(a, a),
{
}

impl SturmSequence {
    /// Splits `[lower, upper]`, which holds `expected_count` roots, into intervals that
    /// hold them: at the midpoint when it is not a root; else around the midpoint, at the
    /// first distance `2^-e` (from `e = 1` on) whose three parts have non-root endpoints,
    /// exactly one root in the middle and the expected total. At a non-root midpoint it
    /// refuses with `InvalidIsolation` when a half has no root count, and with
    /// `NoTargetRoot` when the two counts do not add up to `expected_count`.
    pub fn split_interval(&self, lower: Dyadic, upper: Dyadic, expected_count: usize) -> (r: Result<
        Vec<(Dyadic, Dyadic, usize)>,
        AlgnumError,
    >)
        ensures
            match r {
                Ok(children) => is_split(
                    self@,
                    lower@,
                    upper@,
                    expected_count as int,
                    child_views(children@),
                ) && (forall|k: int|
                    0 <= k < children@.len() ==> proper_child(
                        lower@,
                        upper@,
                        #[trigger] child_views(children@)[k],
                    )) && (!is_root_at(self@, dyadic_midpoint(lower@, upper@)) ==> forall|k: int|
                    0 <= k < children@.len() ==> ((#[trigger] children@[k]).0@ == lower@
                        || children@[k].0@ == dyadic_midpoint(lower@, upper@)) && (
                    children@[k].1@ == dyadic_midpoint(lower@, upper@) || children@[k].1@
                        == upper@)),
                Err(e) => split_failure(e) && split_refusal(
                    self@,
                    lower@,
                    upper@,
                    expected_count as int,
                    e,
                ),
            },
            larger_exponent(lower@, upper@) + 1 <= u32::MAX && counts_roots(self@, lower@, upper@)
                && variations_monotone(self@, lower@, upper@) && !is_root_at(
                self@,
                dyadic_midpoint(lower@, upper@),
            ) && variations(self@, lower@) - variations(self@, upper@) == expected_count
                ==> ok_or_resource(r),
            larger_exponent(lower@, upper@) + 1 <= u32::MAX && !is_root_at(
                self@,
                dyadic_midpoint(lower@, upper@),
            ) && counts_roots(self@, lower@, dyadic_midpoint(lower@, upper@)) && counts_roots(
                self@,
                dyadic_midpoint(lower@, upper@),
                upper@,
            ) && variations(self@, lower@) - variations(self@, upper@) == expected_count
                ==> ok_or_resource(r),
            larger_exponent(lower@, upper@) + 1 <= u32::MAX && !is_root_at(
                self@,
                dyadic_midpoint(lower@, upper@),
            ) && counts_roots(self@, lower@, dyadic_midpoint(lower@, upper@)) && counts_roots(
                self@,
                dyadic_midpoint(lower@, upper@),
                upper@,
            ) && variations(self@, lower@) - variations(self@, upper@) != expected_count
                ==> refused_as(r, AlgnumError::NoTargetRoot),
            larger_exponent(lower@, upper@) + 1 <= u32::MAX && !is_root_at(
                self@,
                dyadic_midpoint(lower@, upper@),
            ) && !(counts_roots(self@, lower@, dyadic_midpoint(lower@, upper@)) && counts_roots(
                self@,
                dyadic_midpoint(lower@, upper@),
                upper@,
            )) ==> refused_as(r, AlgnumError::InvalidIsolation),
    {
        let ghost polys = self@;
        let ghost lo = lower@;
        let ghost hi = upper@;
        let midpoint = match lower.midpoint(&upper) {
            Ok(v) => v,
            Err(error) => return Err(AlgnumError::Bigint(error)),
        };
        let ghost mid = midpoint@;
        proof {
            assert(mid == dyadic_midpoint(lo, hi));
            lemma_dyadic_le_refl(lo);
            lemma_dyadic_le_refl(hi);
            if dyadic_lt(lo, hi) {
                lemma_midpoint_between(lo, hi);
                lemma_lt_le(lo, mid);
                lemma_lt_le(mid, hi);
            }
        }
        if !self.is_root(&midpoint)? {
            let left_count = match self.root_count(&lower, &midpoint) {
                Ok(c) => c,
                Err(error) => {
                    proof {
                        if counts_roots(polys, lo, hi) && variations_monotone(polys, lo, hi) {
                            lemma_sub_counts(polys, lo, hi, lo, mid);
                        }
                    }
                    return Err(error);
                },
            };
            let right_count = match self.root_count(&midpoint, &upper) {
                Ok(c) => c,
                Err(error) => {
                    proof {
                        if counts_roots(polys, lo, hi) && variations_monotone(polys, lo, hi) {
                            lemma_sub_counts(polys, lo, hi, mid, hi);
                        }
                    }
                    return Err(error);
                },
            };
            proof {
                lemma_dyadic_lt_trans(lo, mid, hi);
                assert(counts_roots(polys, lo, hi));
            }
            if left_count.checked_add(right_count) != Some(expected_count) {
                return Err(AlgnumError::NoTargetRoot);
            }
            let middle = match midpoint.try_clone() {
                Ok(v) => v,
                Err(error) => return Err(AlgnumError::Bigint(error)),
            };
            proof {
                assert(mid == dyadic_midpoint(lo, hi));
            }
            let candidates = vec![(lower, middle, left_count), (midpoint, upper, right_count)];
            let ghost cv = child_views(candidates@);
            let children = interval_children(candidates)?;
            proof {
                let a = (lo, mid, left_count as nat);
                let b = (mid, hi, right_count as nat);
                assert(cv =~= seq![a, b]);
                lemma_dyadic_le_refl(lo);
                lemma_dyadic_le_refl(hi);
                lemma_dyadic_le_refl(mid);
                lemma_two_children(polys, lo, hi, expected_count as int, a, b, cv);
                assert forall|k: int| 0 <= k < children@.len() implies proper_child(
                    lower@,
                    upper@,
                    #[trigger] child_views(children@)[k],
                ) by {
                    assert(nonempty_children(cv)[k] == a || nonempty_children(cv)[k] == b);
                }
                assert forall|k: int| 0 <= k < children@.len() implies ((#[trigger] children@[k]).0@
                    == lower@ || children@[k].0@ == dyadic_midpoint(lower@, upper@)) && (
                children@[k].1@ == dyadic_midpoint(lower@, upper@) || children@[k].1@ == upper@) by {
                    assert(child_views(children@)[k] == child_view(children@[k]));
                }
            }
            return Ok(children);
        }
        let mut exponent = initial_search_exponent();
        loop
            invariant
                polys == self@,
                lo == lower@,
                hi == upper@,
                mid == midpoint@,
                mid == dyadic_midpoint(lo, hi),
                is_root_at(polys, dyadic_midpoint(lo, hi)),
                1 <= exponent,
                forall|e: u32|
                    1 <= e < exponent ==> !#[trigger] search_succeeds_at(
                        polys,
                        lo,
                        hi,
                        expected_count as int,
                        e,
                    ),
            decreases u32::MAX - exponent,
        {
            let one = match BigInt::one() {
                Ok(v) => v,
                Err(error) => return Err(AlgnumError::Bigint(error)),
            };
            let offset = Dyadic::new(one, exponent);
            proof {
                assert(offset@ == crate::dyadic::dyadic_normal(1, exponent as nat));
            }
            let left = match midpoint.sub(&offset) {
                Ok(v) => v,
                Err(error) => return Err(AlgnumError::Bigint(error)),
            };
            let right = match midpoint.add(&offset) {
                Ok(v) => v,
                Err(error) => return Err(AlgnumError::Bigint(error)),
            };
            if is_greater(&left, &lower) && is_greater(&upper, &right) {
                if !self.is_root(&left)? {
                    if !self.is_root(&right)? {
                        proof {
                            lemma_offset_order(mid, exponent as nat, left@, right@);
                            lemma_dyadic_lt_trans(left@, right@, hi);
                            lemma_dyadic_lt_trans(lo, left@, right@);
                            lemma_lt_le(lo, left@);
                            lemma_lt_le(right@, hi);
                        }
                        let left_count = match self.root_count(&lower, &left) {
                            Ok(c) => c,
                            Err(error) => {
                                proof {
                                    if counts_roots(polys, lo, hi) && variations_monotone(polys, lo, hi) {
                                        lemma_sub_counts(polys, lo, hi, lo, left@);
                                    }
                                }
                                return Err(error);
                            },
                        };
                        let middle_count = match self.root_count(&left, &right) {
                            Ok(c) => c,
                            Err(error) => {
                                proof {
                                    if counts_roots(polys, lo, hi) && variations_monotone(polys, lo, hi) {
                                        lemma_sub_counts(polys, lo, hi, left@, right@);
                                    }
                                }
                                return Err(error);
                            },
                        };
                        let right_count = match self.root_count(&right, &upper) {
                            Ok(c) => c,
                            Err(error) => {
                                proof {
                                    if counts_roots(polys, lo, hi) && variations_monotone(polys, lo, hi) {
                                        lemma_sub_counts(polys, lo, hi, right@, hi);
                                    }
                                }
                                return Err(error);
                            },
                        };
                        let total = match left_count.checked_add(middle_count) {
                            Some(sum) => sum.checked_add(right_count),
                            None => None,
                        };
                        if middle_count == 1 && total == Some(expected_count) {
                            let left_end = match left.try_clone() {
                                Ok(v) => v,
                                Err(error) => return Err(AlgnumError::Bigint(error)),
                            };
                            let right_end = match right.try_clone() {
                                Ok(v) => v,
                                Err(error) => return Err(AlgnumError::Bigint(error)),
                            };
                            let ghost l = left@;
                            let ghost g = right@;
                            let candidates = vec![
                                (lower, left_end, left_count),
                                (left, right_end, middle_count),
                                (right, upper, right_count),
                            ];
                            let ghost cv = child_views(candidates@);
                            let children = interval_children(candidates)?;
                            proof {
                                let a = (lo, l, left_count as nat);
                                let b = (l, g, middle_count as nat);
                                let c = (g, hi, right_count as nat);
                                assert(cv =~= seq![a, b, c]);
                                lemma_le_chain(lo, l, g, hi);
                                lemma_dyadic_lt_trans(l, g, hi);
                                lemma_dyadic_lt_trans(lo, l, g);
                                lemma_dyadic_le_refl(lo);
                                lemma_dyadic_le_refl(hi);
                                lemma_dyadic_le_refl(l);
                                lemma_dyadic_le_refl(g);
                                lemma_three_children(polys, lo, hi, expected_count as int, a, b, c, cv);
                                assert forall|k: int| 0 <= k < children@.len() implies proper_child(
                                    lower@,
                                    upper@,
                                    #[trigger] child_views(children@)[k],
                                ) by {
                                    let x = nonempty_children(cv)[k];
                                    assert(x == a || x == b || x == c);
                                }
                            }
                            return Ok(children);
                        }
                        proof {
                            assert(left@ == offset_points(mid, exponent).0);
                            assert(right@ == offset_points(mid, exponent).1);
                            if search_succeeds_at(polys, lo, hi, expected_count as int, exponent) {
                                let pts = offset_points(dyadic_midpoint(lo, hi), exponent);
                                assert(mid == dyadic_midpoint(lo, hi));
                                assert(pts.0 == left@);
                                assert(variations(polys, pts.0) - variations(polys, pts.1) == 1);
                                assert(middle_count == variations(polys, left@) - variations(polys, right@));
                                assert(middle_count == 1);
                                assert(left_count + middle_count + right_count == expected_count);
                                assert(total == Some(expected_count));
                            }
                        }
                    } else {
                        proof {
                            assert(right@ == offset_points(mid, exponent).1);
                        }
                    }
                } else {
                    proof {
                        assert(left@ == offset_points(mid, exponent).0);
                    }
                }
            } else {
                proof {
                    assert(left@ == offset_points(mid, exponent).0);
                    assert(right@ == offset_points(mid, exponent).1);
                }
            }
            proof {
                assert(!search_succeeds_at(polys, lo, hi, expected_count as int, exponent));
            }
            match next_search_exponent(exponent) {
                Some(next) => {
                    exponent = next;
                },
                None => {
                    let required = match BigUint::try_from(4294967296u64) {
                        Ok(v) => v,
                        Err(error) => return Err(AlgnumError::Bigint(error)),
                    };
                    return Err(
                        AlgnumError::Bigint(
                            BigintError::ExponentOverflow { required, maximum: u32::MAX },
                        ),
                    );
                },
            }
        }
    }
}

/// The midpoint of two ordered dyadics lies strictly between them.
pub proof fn lemma_midpoint_between(a: (int, nat), b: (int, nat))
    requires
        dyadic_lt(a, b),
    ensures
        dyadic_lt(a, dyadic_midpoint(a, b)),
        dyadic_lt(dyadic_midpoint(a, b), b),
{
    let c: nat = if a.1 >= b.1 {
        a.1
    } else {
        b.1
    };
    let ea = (c - a.1) as nat;
    let eb = (c - b.1) as nat;
    let big_a = a.0 * pow2(ea);
    let big_b = b.0 * pow2(eb);
    let n = big_a + big_b;
    let m = crate::dyadic::dyadic_normal(n, c + 1);
    crate::dyadic::lemma_dyadic_normal(n, c + 1);
    vstd::arithmetic::power2::lemma_pow2_adds(a.1, ea);
    vstd::arithmetic::power2::lemma_pow2_adds(b.1, eb);
    vstd::arithmetic::power2::lemma_pow2_adds(c, 1);
    vstd::arithmetic::power2::lemma_pow2_pos(a.1);
    vstd::arithmetic::power2::lemma_pow2_pos(b.1);
    vstd::arithmetic::power2::lemma_pow2_pos(ea);
    vstd::arithmetic::power2::lemma_pow2_pos(eb);
    vstd::arithmetic::power2::lemma_pow2_pos(m.1);
    vstd::arithmetic::power2::lemma_pow2_pos(c);
    vstd::arithmetic::power2::lemma_pow2(1);
    let (pa, pb, pea, peb, pc, pm) = (pow2(a.1), pow2(b.1), pow2(ea), pow2(eb), pow2(c), pow2(m.1));
    let pc1 = pow2(c + 1);
    assert(pc1 == pc * 2) by {
        assert(pow2(1) == 2) by {
            vstd::arithmetic::power2::lemma2_to64();
        }
    }
    // a < b gives big_a < big_b.
    assert(big_a < big_b) by (nonlinear_arith)
        requires
            a.0 * pb < b.0 * pa,
            pa * pea == pc,
            pb * peb == pc,
            big_a == a.0 * pea,
            big_b == b.0 * peb,
            pea > 0,
            peb > 0,
            pc > 0,
    ;
    assert(big_a * pa == a.0 * pc) by (nonlinear_arith)
        requires
            big_a == a.0 * pea,
            pa * pea == pc,
    ;
    assert(big_b * pb == b.0 * pc) by (nonlinear_arith)
        requires
            big_b == b.0 * peb,
            pb * peb == pc,
    ;
    // a.0 * 2^(c+1) < n * 2^a.1 and n * 2^b.1 < b.0 * 2^(c+1).
    assert(a.0 * pc1 < n * pa) by (nonlinear_arith)
        requires
            big_a < big_b,
            big_a * pa == a.0 * pc,
            pc1 == pc * 2,
            n == big_a + big_b,
            pa > 0,
    ;
    assert(n * pb < b.0 * pc1) by (nonlinear_arith)
        requires
            big_a < big_b,
            big_b * pb == b.0 * pc,
            pc1 == pc * 2,
            n == big_a + big_b,
            pb > 0,
    ;
    assert(n * pm == m.0 * pc1);
    assert(a.0 * pm < m.0 * pa) by (nonlinear_arith)
        requires
            a.0 * pc1 < n * pa,
            n * pm == m.0 * pc1,
            pm > 0,
            pc1 > 0,
    ;
    assert(m.0 * pb < b.0 * pm) by (nonlinear_arith)
        requires
            n * pb < b.0 * pc1,
            n * pm == m.0 * pc1,
            pm > 0,
            pc1 > 0,
    ;
}

/// A strict order is a weak one.
proof fn lemma_lt_le(a: (int, nat), b: (int, nat))
    requires
        dyadic_lt(a, b),
    ensures
        dyadic_le(a, b),
{
}

/// Non-roots `a < b` inside an interval that counts roots, with variations that do not
/// increase, count roots too.
proof fn lemma_sub_counts(
    polys: Seq<Seq<int>>,
    lo: (int, nat),
    hi: (int, nat),
    a: (int, nat),
    b: (int, nat),
)
    requires
        counts_roots(polys, lo, hi),
        variations_monotone(polys, lo, hi),
        dyadic_le(lo, a),
        dyadic_lt(a, b),
        dyadic_le(b, hi),
        !is_root_at(polys, a),
        !is_root_at(polys, b),
    ensures
        counts_roots(polys, a, b),
{
    assert(variations(polys, a) >= variations(polys, b));
}

/// Normal forms over one exponent keep the order of their numerators.
proof fn lemma_normal_order(n1: int, n2: int, c: nat)
    requires
        n1 < n2,
    ensures
        dyadic_lt(crate::dyadic::dyadic_normal(n1, c), crate::dyadic::dyadic_normal(n2, c)),
{
    let x = crate::dyadic::dyadic_normal(n1, c);
    let y = crate::dyadic::dyadic_normal(n2, c);
    crate::dyadic::lemma_dyadic_normal(n1, c);
    crate::dyadic::lemma_dyadic_normal(n2, c);
    vstd::arithmetic::power2::lemma_pow2_pos(c);
    vstd::arithmetic::power2::lemma_pow2_pos(x.1);
    vstd::arithmetic::power2::lemma_pow2_pos(y.1);
    let (pc, px, py) = (pow2(c), pow2(x.1), pow2(y.1));
    assert(x.0 * py < y.0 * px) by (nonlinear_arith)
        requires
            n1 * px == x.0 * pc,
            n2 * py == y.0 * pc,
            n1 < n2,
            pc > 0,
            px > 0,
            py > 0,
    ;
}

/// The points `m - 2^-e` and `m + 2^-e`, as `Dyadic::sub` and `Dyadic::add` compute
/// them, are in order.
proof fn lemma_offset_order(m: (int, nat), e: nat, left: (int, nat), right: (int, nat))
    requires
        ({
            let o = crate::dyadic::dyadic_normal(1, e);
            let c = if m.1 >= o.1 { m.1 } else { o.1 };
            &&& left == crate::dyadic::dyadic_normal(
                m.0 * pow2((c - m.1) as nat) - o.0 * pow2((c - o.1) as nat),
                c,
            )
            &&& right == crate::dyadic::dyadic_normal(
                m.0 * pow2((c - m.1) as nat) + o.0 * pow2((c - o.1) as nat),
                c,
            )
        }),
    ensures
        dyadic_lt(left, right),
{
    let o = crate::dyadic::dyadic_normal(1, e);
    assert(o == (1int, e));
    let c = if m.1 >= o.1 {
        m.1
    } else {
        o.1
    };
    vstd::arithmetic::power2::lemma_pow2_pos((c - o.1) as nat);
    lemma_normal_order(
        m.0 * pow2((c - m.1) as nat) - o.0 * pow2((c - o.1) as nat),
        m.0 * pow2((c - m.1) as nat) + o.0 * pow2((c - o.1) as nat),
        c,
    );
}

/// The order of dyadic values is transitive.
proof fn lemma_dyadic_lt_trans(a: (int, nat), b: (int, nat), c: (int, nat))
    requires
        dyadic_lt(a, b),
        dyadic_lt(b, c),
    ensures
        dyadic_lt(a, c),
        dyadic_le(a, c),
{
    let pa = pow2(a.1);
    let pb = pow2(b.1);
    let pc = pow2(c.1);
    vstd::arithmetic::power2::lemma_pow2_pos(a.1);
    vstd::arithmetic::power2::lemma_pow2_pos(b.1);
    vstd::arithmetic::power2::lemma_pow2_pos(c.1);
    assert(a.0 * pc < c.0 * pa) by (nonlinear_arith)
        requires
            a.0 * pb < b.0 * pa,
            b.0 * pc < c.0 * pb,
            pa > 0,
            pb > 0,
            pc > 0,
    ;
}

/// Ordered dyadics, strictly between the first and the last, are ordered weakly too.
proof fn lemma_le_chain(a: (int, nat), b: (int, nat), c: (int, nat), d: (int, nat))
    requires
        dyadic_lt(a, b),
        dyadic_lt(b, c),
        dyadic_lt(c, d),
    ensures
        dyadic_le(a, b),
        dyadic_le(b, c),
        dyadic_le(c, d),
{
}

/// A candidate is a valid child of `[lower, upper]` when it has roots.
pub open spec fn valid_child(
    polynomials: Seq<Seq<int>>,
    lower: (int, nat),
    upper: (int, nat),
    c: ((int, nat), (int, nat), nat),
) -> bool {
    &&& counts_roots(polynomials, c.0, c.1)
    &&& c.2 == variations(polynomials, c.0) - variations(polynomials, c.1)
    &&& dyadic_le(lower, c.0)
    &&& dyadic_le(c.1, upper)
}

proof fn lemma_two_children(
    polys: Seq<Seq<int>>,
    lo: (int, nat),
    hi: (int, nat),
    expected: int,
    a: ((int, nat), (int, nat), nat),
    b: ((int, nat), (int, nat), nat),
    cands: Seq<((int, nat), (int, nat), nat)>,
)
    requires
        valid_child(polys, lo, hi, a),
        valid_child(polys, lo, hi, b),
        dyadic_le(a.1, b.0),
        a.2 + b.2 == expected,
        cands == seq![a, b],
    ensures
        is_split(polys, lo, hi, expected, nonempty_children(cands)),
        forall|k: int|
            0 <= k < nonempty_children(cands).len() ==> #[trigger] nonempty_children(cands)[k] == a
                || nonempty_children(cands)[k] == b,
{
    reveal_with_fuel(nonempty_children, 3);
    reveal_with_fuel(count_sum, 3);
    let e = Seq::<((int, nat), (int, nat), nat)>::empty();
    assert(seq![a, b].drop_last() =~= seq![a]);
    assert(seq![a].drop_last() =~= e);
    assert(e.push(a) =~= seq![a]);
    assert(e.push(b) =~= seq![b]);
    assert(seq![a].push(b) =~= seq![a, b]);
    let r = nonempty_children(seq![a, b]);
    assert(count_sum(seq![a]) == a.2);
    assert(count_sum(seq![b]) == b.2);
    assert(count_sum(seq![a, b]) == a.2 + b.2);
}

proof fn lemma_three_children(
    polys: Seq<Seq<int>>,
    lo: (int, nat),
    hi: (int, nat),
    expected: int,
    a: ((int, nat), (int, nat), nat),
    b: ((int, nat), (int, nat), nat),
    c: ((int, nat), (int, nat), nat),
    cands: Seq<((int, nat), (int, nat), nat)>,
)
    requires
        cands == seq![a, b, c],
        valid_child(polys, lo, hi, a),
        valid_child(polys, lo, hi, b),
        valid_child(polys, lo, hi, c),
        b.2 > 0,
        dyadic_le(a.1, b.0),
        dyadic_le(b.1, c.0),
        dyadic_le(a.1, c.0),
        a.2 + b.2 + c.2 == expected,
    ensures
        is_split(polys, lo, hi, expected, nonempty_children(cands)),
        forall|k: int|
            0 <= k < nonempty_children(cands).len() ==> #[trigger] nonempty_children(cands)[k] == a
                || nonempty_children(cands)[k] == b || nonempty_children(cands)[k] == c,
{
    reveal_with_fuel(nonempty_children, 4);
    reveal_with_fuel(count_sum, 4);
    let e = Seq::<((int, nat), (int, nat), nat)>::empty();
    assert(seq![a, b, c].drop_last() =~= seq![a, b]);
    assert(seq![a, b].drop_last() =~= seq![a]);
    assert(seq![a].drop_last() =~= e);
    assert(e.push(a) =~= seq![a]);
    assert(e.push(b) =~= seq![b]);
    assert(seq![a].push(b) =~= seq![a, b]);
    assert(seq![b].push(c) =~= seq![b, c]);
    assert(seq![a, b].push(c) =~= seq![a, b, c]);
    assert(count_sum(seq![b]) == b.2);
    assert(count_sum(seq![a, b]) == a.2 + b.2);
    assert(count_sum(seq![b, c]) == b.2 + c.2) by {
        assert(seq![b, c].drop_last() =~= seq![b]);
        assert(seq![b].drop_last() =~= e);
    }
    assert(count_sum(seq![a, b, c]) == a.2 + b.2 + c.2);
}


/// Each rational coefficient negated, in lowest terms.
pub open spec fn rat_negated(s: Seq<(int, nat)>) -> Seq<(int, nat)> {
    Seq::new(s.len(), |i: int| reduced_form(-s[i].0, s[i].1))
}

/// Negation keeps the coefficients reduced and the leading one nonzero.
pub proof fn lemma_negated(r: Seq<(int, nat)>)
    requires
        all_reduced(r),
    ensures
        all_reduced(rat_negated(r)),
        is_trimmed_rat(r) ==> is_trimmed_rat(rat_negated(r)),
        rat_negated(r).len() == r.len(),
{
    assert forall|i: int| 0 <= i < r.len() implies #[trigger] is_reduced(rat_negated(r)[i]) by {
        assert(is_reduced(r[i]));
        crate::rational::lemma_reduced_form(-r[i].0, r[i].1);
    }
    if r.len() > 0 {
        let last = r.len() - 1;
        assert(is_reduced(r[last]));
        crate::rational::lemma_reduced_form(-r[last].0, r[last].1);
    }
}

/// The derivative of reduced coefficients is reduced.
pub proof fn lemma_derivative_reduced(s: Seq<(int, nat)>)
    requires
        all_reduced(s),
    ensures
        all_reduced(rat_derivative(s)),
        crate::polynomial::is_trimmed_rat(rat_derivative(s)),
{
    if s.len() > 1 {
        let full = Seq::new(
            (s.len() - 1) as nat,
            |i: int| crate::polynomial::rat_mul(s[i + 1], ((i + 1) as int, 1nat)),
        );
        crate::polynomial::lemma_trim_rat(full);
        assert forall|i: int| 0 <= i < rat_derivative(s).len() implies #[trigger] is_reduced(
            rat_derivative(s)[i],
        ) by {
            assert(rat_derivative(s)[i] == full[i]);
            assert(is_reduced(s[i + 1]));
            assert(s[i + 1].1 * 1 > 0);
            crate::rational::lemma_reduced_form(s[i + 1].0 * (i + 1), s[i + 1].1 * 1);
        }
    }
}

/// The Sturm polynomials after `previous` and `current`: each negated nonzero remainder
/// of Euclid's algorithm, as a primitive integer polynomial with its sign.
pub open spec fn sturm_tail(previous: Seq<(int, nat)>, current: Seq<(int, nat)>) -> Seq<Seq<int>>
    decreases current.len(),
    when all_reduced(previous) && all_reduced(current) && is_trimmed_rat(current)
{
    if current.len() == 0 {
        Seq::empty()
    } else {
        let remainder = rat_div_rem(previous, current).1;
        if remainder.len() == 0 {
            Seq::empty()
        } else {
            proof {
                lemma_remainder_shape(previous, current);
                crate::polynomial::lemma_trim_rat(remainder);
                lemma_negated(remainder);
                crate::polynomial::lemma_trim_rat(rat_div_rem(previous, current).1);
            }
            seq![signed_primitive(rat_negated(remainder))] + sturm_tail(
                current,
                rat_negated(remainder),
            )
        }
    }
}

/// The Sturm sequence of `p`: its primitive part, the signed primitive form of its
/// derivative, and the negated remainders of Euclid's algorithm on the two.
pub open spec fn sturm_sequence_of(p: Seq<int>) -> Seq<Seq<int>> {
    let first = primitive_of(p);
    let rational = Seq::new(first.len(), |i: int| (first[i], 1nat));
    let derivative = rat_derivative(rational);
    if derivative.len() == 0 {
        seq![first]
    } else {
        seq![first, signed_primitive(derivative)] + sturm_tail(rational, derivative)
    }
}

/// The primitive integer polynomial of a rational one, with the sign of its leading
/// coefficient.
pub open spec fn signed_primitive(s: Seq<(int, nat)>) -> Seq<int> {
    let p = primitive_of(trim_int(scaled_integers(s)));
    if s.len() > 0 && s[s.len() - 1].0 < 0 {
        Seq::new(p.len(), |i: int| -p[i])
    } else {
        p
    }
}

/// The primitive integer polynomial of `polynomial`, negated when its leading
/// coefficient is negative.
pub fn primitive_integer_preserving_sign(polynomial: &RationalPolynomial) -> (r: Result<
    Polynomial,
    AlgnumError,
>)
    ensures
        match r {
            Ok(p) => p@ == signed_primitive(polynomial@),
            Err(e) => product_failure(e),
        },
{
    if polynomial.is_zero() {
        proof {
            assert(scaled_integers(polynomial@) =~= Seq::<int>::empty());
            assert(primitive_of(Seq::<int>::empty()) =~= Seq::<int>::empty());
        }
        return Ok(Polynomial::zero());
    }
    let primitive = polynomial.to_primitive_integer()?;
    let coefficients = polynomial.coefficients();
    let leading = &coefficients[coefficients.len() - 1];
    proof {
        assert(leading@ == polynomial@[polynomial@.len() - 1]);
    }
    let negative = leading.numerator().sign() == Sign::Negative;
    proof {
        assert(negative == (polynomial@[polynomial@.len() - 1].0 < 0));
    }
    if negative {
        negate_integer_polynomial(&primitive)
    } else {
        Ok(primitive)
    }
}

/// Builds the Sturm sequence of `polynomial`, storing it in `output` when `fill`, and
/// returns its length.
fn build_sturm_polynomials(polynomial: &Polynomial, fill: bool, output: &mut Vec<Polynomial>) -> (r:
    Result<usize, AlgnumError>)
    requires
        old(output)@.len() == 0,
    ensures
        match r {
            Ok(count) => count == sturm_sequence_of(polynomial@).len() && (fill ==> poly_views(
                final(output)@,
            ) == sturm_sequence_of(polynomial@)) && (!fill ==> final(output)@ == old(output)@),
            Err(e) => product_failure(e),
        },
{
    let ghost full = sturm_sequence_of(polynomial@);
    let total = polynomial.coefficients().len();
    let first = polynomial.primitive_part()?;
    let mut previous = first.to_rational()?;
    let mut current = previous.derivative_internal()?;
    let mut count: usize = 1;
    let ghost start = primitive_of(polynomial@);
    proof {
        assert forall|i: int| 0 <= i < previous@.len() implies #[trigger] is_reduced(previous@[i])
            by {
            crate::coprime::lemma_coprime_one(crate::integer::abs(previous@[i].0));
        }
        lemma_derivative_reduced(previous@);
        crate::polynomial::lemma_trim_rat(
            Seq::new(
                (previous@.len() - 1) as nat,
                |i: int| crate::polynomial::rat_mul(previous@[i + 1], ((i + 1) as int, 1nat)),
            ),
        );
        assert(previous@ == Seq::new(start.len(), |i: int| (start[i], 1nat)));
    }
    if fill {
        output.push(first);
        proof {
            assert(poly_views(output@) =~= seq![start]);
        }
    }
    if !current.is_zero() {
        count = count + 1;
        if fill {
            let converted = primitive_integer_preserving_sign(&current)?;
            output.push(converted);
            proof {
                assert(poly_views(output@) =~= seq![start, signed_primitive(current@)]);
            }
        }
    } else {
        proof {
            assert(full =~= seq![start]);
        }
    }
    proof {
        if current@.len() > 0 {
            assert(full == seq![start, signed_primitive(current@)] + sturm_tail(previous@, current@));
        } else {
            assert(sturm_tail(previous@, current@) =~= Seq::<Seq<int>>::empty());
        }
    }
    let mut more = true;
    while more && !current.is_zero()
        invariant
            count >= 1,
            total == polynomial@.len(),
            count + current@.len() <= polynomial@.len() + 1,
            all_reduced(previous@),
            all_reduced(current@),
            is_trimmed_rat(current@),
            more ==> count + sturm_tail(previous@, current@).len() == full.len(),
            !more ==> count == full.len(),
            fill ==> (more ==> poly_views(output@) + sturm_tail(previous@, current@) == full),
            fill ==> (!more ==> poly_views(output@) == full),
            !fill ==> output@.len() == 0,
        decreases current@.len() + if more {
            1int
        } else {
            0int
        },
    {
        proof {
            use_type_invariant(&current);
            lemma_remainder_shape(previous@, current@);
        }
        let (_, remainder) = previous.div_rem(&current)?;
        if remainder.is_zero() {
            proof {
                assert(sturm_tail(previous@, current@) =~= Seq::<Seq<int>>::empty());
                if fill {
                    assert(poly_views(output@) + Seq::<Seq<int>>::empty() =~= poly_views(output@));
                }
            }
            more = false;
        } else {
            let next = negate_rational_polynomial(&remainder)?;
            proof {
                use_type_invariant(&remainder);
                lemma_negated(remainder@);
            }
            let ghost tail = sturm_tail(previous@, current@);
            let ghost step = signed_primitive(next@);
            proof {
                assert(tail == seq![step] + sturm_tail(current@, next@));
            }
            count = count + 1;
            if fill {
                let ghost before = poly_views(output@);
                let converted = primitive_integer_preserving_sign(&next)?;
                output.push(converted);
                proof {
                    assert(poly_views(output@) =~= before.push(step));
                    assert(before.push(step) + sturm_tail(current@, next@) =~= before + tail);
                }
            }
            previous = current;
            current = next;
        }
    }
    proof {
        if more {
            assert(sturm_tail(previous@, current@) =~= Seq::<Seq<int>>::empty());
            if fill {
                assert(poly_views(output@) + Seq::<Seq<int>>::empty() =~= poly_views(output@));
            }
        }
    }
    Ok(count)
}

impl SturmSequence {
    /// The Sturm sequence of a polynomial of positive degree; a zero or constant
    /// polynomial is refused.
    pub fn new(polynomial: &Polynomial) -> (r: Result<Self, AlgnumError>)
        ensures
            polynomial@.len() <= 1 ==> r == Err::<SturmSequence, AlgnumError>(
                AlgnumError::ZeroPolynomial,
            ),
            polynomial@.len() > 1 ==> match r {
                Ok(s) => s@ == sturm_sequence_of(polynomial@),
                Err(e) => product_failure(e),
            },
    {
        match polynomial.degree() {
            None => return Err(AlgnumError::ZeroPolynomial),
            Some(degree) => {
                if degree == 0 {
                    return Err(AlgnumError::ZeroPolynomial);
                }
            },
        }
        let mut counting: Vec<Polynomial> = Vec::new();
        let count = build_sturm_polynomials(polynomial, false, &mut counting)?;
        let mut polynomials: Vec<Polynomial> = Vec::new();
        reserve_elements(&mut polynomials, count, AllocationResource::SturmSequence)?;
        build_sturm_polynomials(polynomial, true, &mut polynomials)?;
        proof {
            assert(sturm_sequence_of(polynomial@).len() >= 1);
            assert(sturm_sequence_of(polynomial@)[0] == primitive_of(polynomial@));
            assert(poly_views(polynomials@)[0] == polynomials@[0]@);
        }
        let sequence = SturmSequence { polynomials };
        proof {
            assert(sequence@ =~= poly_views(sequence.polynomials@));
        }
        Ok(sequence)
    }
}

} // verus!
