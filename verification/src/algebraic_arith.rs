//! Sums and differences of real algebraic numbers: the result is a root of a resultant
//! candidate, selected as the one root whose enclosure meets the enclosure of the
//! operation at some precision.
use crate::algebraic::{
    binary_selection_precisions, canonical_factorization, enclose_failure, encloses_root,
    enclosures_intersect, result_selection_precision, CertifiedAlgebraic, RealAlgebraic,
};
use crate::algnum_error::{resource_failure, AlgnumError};
use crate::dyadic::{dyadic_le, DyadicEnclosure};
use crate::error::BigintError;
use crate::factorization::{factor_views, factorization_failure};
use crate::isolation::isolation_failure;
use crate::natural::BigUint;
use crate::polynomial::{
    coef, constant_poly, gcd_leaves_remainder, product_failure, rational_failure, square_free_of,
    Polynomial,
};
use crate::resultant::{is_resultant_of, poly_views, resultant, resultant_failure};
use crate::sturm::{dyadic_combine, sturm_sequence_of};
use crate::substitution::{
    constant_y_polynomial, signed_term, substitute_x_minus_y, substitute_y_minus_x,
};
use vstd::prelude::*;

verus! {

/// `rows` is `q(x - y)`, or `q(y - x)` when `reversed`, by powers of `y`.
pub open spec fn shifted_rows(q: Seq<int>, reversed: bool, rows: Seq<Seq<int>>) -> bool {
    &&& rows.len() == q.len()
    &&& forall|j: int, i: int|
        0 <= j < rows.len() && 0 <= i ==> #[trigger] coef(rows[j], i) == if i + j < q.len() {
            signed_term(q, reversed, !reversed, i, j)
        } else {
            0
        }
}

/// `c` is the resultant in `y` of `p(y)` and `q(x - y)` (of `q(y - x)` when `reversed`):
/// the candidate whose roots include the sums (differences) of the roots of `p` and `q`.
pub open spec fn sum_candidate(p: Seq<int>, q: Seq<int>, reversed: bool, c: Seq<int>) -> bool {
    exists|rows: Seq<Seq<int>>|
        #[trigger] shifted_rows(q, reversed, rows) && is_resultant_of(
            Seq::new(p.len(), |i: int| constant_poly(p[i])),
            rows,
            c,
        )
}

/// The interval sum of `l` and `r`, or their difference `l - r` when `subtract`.
pub open spec fn interval_sum(
    l: ((int, nat), (int, nat)),
    r: ((int, nat), (int, nat)),
    subtract: bool,
) -> ((int, nat), (int, nat)) {
    if subtract {
        (dyadic_combine(l.0, r.1, true), dyadic_combine(l.1, r.0, true))
    } else {
        (dyadic_combine(l.0, r.0, false), dyadic_combine(l.1, r.1, false))
    }
}

/// Two closed intervals meet.
pub open spec fn meets(a: ((int, nat), (int, nat)), b: ((int, nat), (int, nat))) -> bool {
    dyadic_le(a.0, b.1) && dyadic_le(b.0, a.1)
}

/// The interval sum (difference) of two intervals.
fn enclosure_sum(left: &DyadicEnclosure, right: &DyadicEnclosure, subtract: bool) -> (r: Result<
    DyadicEnclosure,
    AlgnumError,
>)
    ensures
        match r {
            Ok(v) => v@ == interval_sum(left@, right@, subtract),
            Err(e) => resource_failure(e) || (e == AlgnumError::Bigint(BigintError::InvalidInterval)
                && !dyadic_le(
                interval_sum(left@, right@, subtract).0,
                interval_sum(left@, right@, subtract).1,
            )),
        },
{
    let (lower, upper) = if subtract {
        let lower = match left.lower().sub(right.upper()) {
            Ok(v) => v,
            Err(error) => return Err(AlgnumError::Bigint(error)),
        };
        let upper = match left.upper().sub(right.lower()) {
            Ok(v) => v,
            Err(error) => return Err(AlgnumError::Bigint(error)),
        };
        (lower, upper)
    } else {
        let lower = match left.lower().add(right.lower()) {
            Ok(v) => v,
            Err(error) => return Err(AlgnumError::Bigint(error)),
        };
        let upper = match left.upper().add(right.upper()) {
            Ok(v) => v,
            Err(error) => return Err(AlgnumError::Bigint(error)),
        };
        (lower, upper)
    };
    match DyadicEnclosure::new(lower, upper) {
        Ok(v) => Ok(v),
        Err(error) => Err(AlgnumError::Bigint(error)),
    }
}

/// `expected` is the interval sum (difference) of enclosures of the roots `lhs` and
/// `rhs` at precision `2^-bits`.
pub open spec fn sum_enclosed(
    lhs: (Seq<int>, usize),
    rhs: (Seq<int>, usize),
    subtract: bool,
    bits: u32,
    expected: ((int, nat), (int, nat)),
) -> bool {
    exists|l: ((int, nat), (int, nat)), r: ((int, nat), (int, nat))|
        #[trigger] encloses_root(sturm_sequence_of(lhs.0), lhs.1, l, bits) && #[trigger] encloses_root(
            sturm_sequence_of(rhs.0),
            rhs.1,
            r,
            bits,
        ) && expected == interval_sum(l, r, subtract)
}

/// Why the enclosure of a sum (difference) failed.
pub open spec fn sum_enclosure_failure(
    lhs: (Seq<int>, usize),
    rhs: (Seq<int>, usize),
    subtract: bool,
    bits: u32,
    e: AlgnumError,
) -> bool {
    ||| resource_failure(e)
    ||| (e is ZeroPolynomial && (lhs.0.len() <= 1 || rhs.0.len() <= 1))
    ||| (lhs.0.len() > 1 && enclose_failure(sturm_sequence_of(lhs.0), lhs.1, e))
    ||| (rhs.0.len() > 1 && enclose_failure(sturm_sequence_of(rhs.0), rhs.1, e))
    ||| (e == AlgnumError::Bigint(BigintError::InvalidInterval) && exists|
        l: ((int, nat), (int, nat)),
        r: ((int, nat), (int, nat)),
    |
        #[trigger] encloses_root(sturm_sequence_of(lhs.0), lhs.1, l, bits) && #[trigger] encloses_root(
            sturm_sequence_of(rhs.0),
            rhs.1,
            r,
            bits,
        ) && !dyadic_le(interval_sum(l, r, subtract).0, interval_sum(l, r, subtract).1))
}

/// An enclosure of the sum (difference) of `lhs` and `rhs`, from their enclosures at
/// the precisions that `binary_selection_precisions` gives for `bits`.
fn sum_enclosure(lhs: &RealAlgebraic, rhs: &RealAlgebraic, subtract: bool, bits: u32) -> (r: Result<
    DyadicEnclosure,
    AlgnumError,
>)
    ensures
        match r {
            Ok(v) => sum_enclosed(lhs@, rhs@, subtract, bits, v@),
            Err(e) => sum_enclosure_failure(lhs@, rhs@, subtract, bits, e),
        },
{
    let (left_bits, right_bits) = binary_selection_precisions(bits);
    let left = lhs.enclose(left_bits)?;
    let right = rhs.enclose(right_bits)?;
    enclosure_sum(left.enclosure(), right.enclosure(), subtract)
}

/// The numbers of certified roots.
pub open spec fn certified_values(s: Seq<CertifiedAlgebraic>) -> Seq<(Seq<int>, usize)> {
    Seq::new(s.len(), |i: int| s[i]@.0)
}

/// `p` is a factor of positive degree in `fs`.
pub open spec fn in_factors(fs: Seq<Seq<int>>, p: Seq<int>) -> bool {
    exists|k: int| 0 <= k < fs.len() && fs[k] == p && p.len() > 1
}

/// `vals` are real roots of the factors of a canonical factorization of the square-free
/// part of `c`.
pub open spec fn candidate_roots(c: Seq<int>, vals: Seq<(Seq<int>, usize)>) -> bool {
    exists|fs: Seq<Seq<int>>|
        #[trigger] canonical_factorization(square_free_of(c), fs) && forall|i: int|
            0 <= i < vals.len() ==> #[trigger] in_factors(fs, vals[i].0)
}

/// An enclosure of the root `v` at precision `2^-bits` meets `expected`.
pub open spec fn root_meets(v: (Seq<int>, usize), expected: ((int, nat), (int, nat)), bits: u32) -> bool {
    exists|e: ((int, nat), (int, nat))|
        #[trigger] encloses_root(sturm_sequence_of(v.0), v.1, e, bits) && meets(expected, e)
}

/// An enclosure of the root `v` at precision `2^-bits` misses `expected`.
pub open spec fn root_misses(v: (Seq<int>, usize), expected: ((int, nat), (int, nat)), bits: u32) -> bool {
    exists|e: ((int, nat), (int, nat))|
        #[trigger] encloses_root(sturm_sequence_of(v.0), v.1, e, bits) && !meets(expected, e)
}

/// Two of the roots `vals` have enclosures at precision `2^-bits` that meet `expected`.
pub open spec fn several_meet(vals: Seq<(Seq<int>, usize)>, expected: ((int, nat), (int, nat)), bits: u32) -> bool {
    exists|i: int, j: int|
        0 <= i < j < vals.len() && #[trigger] root_meets(vals[i], expected, bits) && #[trigger] root_meets(
            vals[j],
            expected,
            bits,
        )
}

/// At precision `2^-bits` the enclosure of the operation is `expected`, and `a`, at
/// position `i` of `vals`, is the one root whose enclosure meets it.
pub open spec fn chosen_alone(
    vals: Seq<(Seq<int>, usize)>,
    lhs: (Seq<int>, usize),
    rhs: (Seq<int>, usize),
    subtract: bool,
    a: (Seq<int>, usize),
) -> bool {
    exists|bits: u32, expected: ((int, nat), (int, nat)), i: int|
        #[trigger] sum_enclosed(lhs, rhs, subtract, bits, expected) && 0 <= i < vals.len() && #[trigger] vals[i]
            == a && root_meets(a, expected, bits) && forall|j: int|
            0 <= j < vals.len() && j != i ==> #[trigger] root_misses(vals[j], expected, bits)
}

/// At some precision the enclosure of the operation meets no enclosure of the roots.
pub open spec fn none_chosen(
    vals: Seq<(Seq<int>, usize)>,
    lhs: (Seq<int>, usize),
    rhs: (Seq<int>, usize),
    subtract: bool,
) -> bool {
    exists|bits: u32, expected: ((int, nat), (int, nat))|
        #[trigger] sum_enclosed(lhs, rhs, subtract, bits, expected) && forall|j: int|
            0 <= j < vals.len() ==> #[trigger] root_misses(vals[j], expected, bits)
}

/// At precision `2^-bits` the enclosure of the operation meets enclosures of two roots.
pub open spec fn crowded_at(
    vals: Seq<(Seq<int>, usize)>,
    lhs: (Seq<int>, usize),
    rhs: (Seq<int>, usize),
    subtract: bool,
    bits: u32,
) -> bool {
    exists|expected: ((int, nat), (int, nat))|
        #[trigger] sum_enclosed(lhs, rhs, subtract, bits, expected) && several_meet(vals, expected, bits)
}

/// Why selecting the root of a sum (difference) among the roots of `c` failed.
pub open spec fn selection_failure(
    c: Seq<int>,
    lhs: (Seq<int>, usize),
    rhs: (Seq<int>, usize),
    subtract: bool,
    e: AlgnumError,
) -> bool {
    ||| resource_failure(e)
    ||| rational_failure(e)
    ||| factorization_failure(e)
    ||| (e is ZeroPolynomial && c.len() <= 1)
    ||| (e == AlgnumError::Bigint(BigintError::NonExactDivision) && gcd_leaves_remainder(c))
    ||| exists|fs: Seq<Seq<int>>, k: int|
        #[trigger] canonical_factorization(square_free_of(c), fs) && 0 <= k < fs.len() && (
        #[trigger] fs[k].len() <= 1 && e is ZeroPolynomial || fs[k].len() > 1 && (product_failure(e)
            || isolation_failure(sturm_sequence_of(fs[k]), e)))
    ||| exists|vals: Seq<(Seq<int>, usize)>|
        #[trigger] candidate_roots(c, vals) && {
            ||| exists|bits: u32| #[trigger] sum_enclosure_failure(lhs, rhs, subtract, bits, e)
            ||| exists|i: int|
                0 <= i < vals.len() && #[trigger] vals[i].0.len() > 1 && enclose_failure(
                    sturm_sequence_of(vals[i].0),
                    vals[i].1,
                    e,
                )
            ||| e is NoTargetRoot && none_chosen(vals, lhs, rhs, subtract)
            ||| (e matches AlgnumError::Bigint(b) && b is ExponentOverflow && forall|bits: u32|
                #[trigger] crowded_at(vals, lhs, rhs, subtract, bits))
        }
}

/// The real roots of all irreducible factors of the square-free part of `candidate`.
fn candidate_roots_of(candidate: Polynomial) -> (r: Result<Vec<CertifiedAlgebraic>, AlgnumError>)
    ensures
        match r {
            Ok(roots) => candidate_roots(candidate@, certified_values(roots@)),
            Err(e) => resource_failure(e) || rational_failure(e) || factorization_failure(e) || (
            e is ZeroPolynomial && candidate@.len() <= 1) || (e == AlgnumError::Bigint(
                BigintError::NonExactDivision,
            ) && gcd_leaves_remainder(candidate@)) || exists|fs: Seq<Seq<int>>, k: int|
                #[trigger] canonical_factorization(square_free_of(candidate@), fs) && 0 <= k < fs.len() && (
                #[trigger] fs[k].len() <= 1 && e is ZeroPolynomial || fs[k].len() > 1 && (
                product_failure(e) || isolation_failure(sturm_sequence_of(fs[k]), e))),
        },
{
    let ghost c = candidate@;
    let square_free = candidate.candidate()?.square_free()?;
    let factors = square_free.factor()?;
    let ghost fs = factor_views(factors@);
    proof {
        assert(canonical_factorization(square_free_of(c), fs));
    }
    let mut roots: Vec<CertifiedAlgebraic> = Vec::new();
    let mut k: usize = 0;
    while k < factors.len()
        invariant
            c == candidate@,
            k <= factors@.len(),
            fs == factor_views(factors@),
            canonical_factorization(square_free_of(c), fs),
            forall|i: int| 0 <= i < roots@.len() ==> #[trigger] in_factors(fs, certified_values(roots@)[i].0),
        decreases factors@.len() - k,
    {
        proof {
            assert(fs[k as int] == factors@[k as int]@);
        }
        let mut list = match factors[k].isolate_real_roots() {
            Ok(v) => v,
            Err(error) => {
                proof {
                    assert(canonical_factorization(square_free_of(c), fs) && 0 <= k < fs.len() && (
                    fs[k as int].len() <= 1 && error is ZeroPolynomial || fs[k as int].len() > 1 && (
                    product_failure(error) || isolation_failure(sturm_sequence_of(fs[k as int]), error))));
                }
                return Err(error);
            },
        };
        let ghost p = fs[k as int];
        proof {
            assert(p.len() > 1);
            assert(in_factors(fs, p));
        }
        while list.len() > 0
            invariant
                forall|i: int| 0 <= i < list@.len() ==> (#[trigger] list@[i])@.0.0 == p,
                in_factors(fs, p),
                forall|i: int| 0 <= i < roots@.len() ==> #[trigger] in_factors(fs, certified_values(roots@)[i].0),
            decreases list@.len(),
        {
            let ghost before = list@;
            let item = list.remove(0);
            proof {
                assert(item@.0.0 == p);
                assert forall|i: int| 0 <= i < list@.len() implies (#[trigger] list@[i])@.0.0 == p by {
                    assert(list@[i] == before[i + 1]);
                }
            }
            let ghost old_roots = roots@;
            roots.push(item);
            proof {
                assert forall|i: int| 0 <= i < roots@.len() implies #[trigger] in_factors(
                    fs,
                    certified_values(roots@)[i].0,
                ) by {
                    if i < old_roots.len() {
                        assert(certified_values(roots@)[i] == certified_values(old_roots)[i]);
                    }
                }
            }
        }
        k = k + 1;
    }
    Ok(roots)
}

/// The roots of the factors have positive-degree minimal polynomials.
proof fn lemma_candidate_roots_degree(c: Seq<int>, vals: Seq<(Seq<int>, usize)>)
    requires
        candidate_roots(c, vals),
    ensures
        forall|i: int| 0 <= i < vals.len() ==> #[trigger] vals[i].0.len() > 1,
{
    let fs = choose|fs: Seq<Seq<int>>|
        #[trigger] canonical_factorization(square_free_of(c), fs) && forall|i: int|
            0 <= i < vals.len() ==> #[trigger] in_factors(fs, vals[i].0);
    assert forall|i: int| 0 <= i < vals.len() implies #[trigger] vals[i].0.len() > 1 by {
        assert(in_factors(fs, vals[i].0));
    }
}

/// Which of the roots have enclosures at precision `2^-bits` that meet `expected`: the
/// first such position, and whether there is a second.
fn scan_roots(roots: &Vec<CertifiedAlgebraic>, expected: &DyadicEnclosure, bits: u32) -> (r: Result<
    (Option<usize>, bool),
    AlgnumError,
>)
    requires
        forall|i: int| 0 <= i < roots@.len() ==> #[trigger] certified_values(roots@)[i].0.len() > 1,
    ensures
        match r {
            Ok((selected, multiple)) => {
                let vals = certified_values(roots@);
                &&& multiple ==> several_meet(vals, expected@, bits)
                &&& !multiple && selected is None ==> forall|j: int|
                    0 <= j < vals.len() ==> #[trigger] root_misses(vals[j], expected@, bits)
                &&& !multiple && selected is Some ==> selected->0 < vals.len() && root_meets(
                    vals[selected->0 as int],
                    expected@,
                    bits,
                ) && forall|j: int|
                    0 <= j < vals.len() && j != selected->0 ==> #[trigger] root_misses(vals[j], expected@, bits)
            },
            Err(e) => exists|i: int|
                0 <= i < roots@.len() && enclose_failure(
                    sturm_sequence_of(#[trigger] certified_values(roots@)[i].0),
                    certified_values(roots@)[i].1,
                    e,
                ),
        },
{
    let ghost vals = certified_values(roots@);
    let ghost expv = expected@;
    let mut selected: Option<usize> = None;
    let mut multiple = false;
    let mut i: usize = 0;
    while i < roots.len()
        invariant
            i <= roots@.len(),
            vals == certified_values(roots@),
            expv == expected@,
            forall|t: int| 0 <= t < roots@.len() ==> #[trigger] vals[t].0.len() > 1,
            !multiple && selected is None ==> forall|j: int| 0 <= j < i ==> #[trigger] root_misses(vals[j], expv, bits),
            !multiple && selected is Some ==> forall|j: int|
                0 <= j < i && j != selected->0 ==> #[trigger] root_misses(vals[j], expv, bits),
            multiple ==> several_meet(vals, expv, bits),
            selected is Some ==> selected->0 < i && root_meets(vals[selected->0 as int], expv, bits),
        decreases roots@.len() - i,
    {
        proof {
            assert(vals[i as int] == roots@[i as int]@.0);
            assert(vals[i as int].0.len() > 1);
        }
        let actual = match roots[i].value().enclose(bits) {
            Ok(v) => v,
            Err(error) => return Err(error),
        };
        proof {
            assert(encloses_root(sturm_sequence_of(vals[i as int].0), vals[i as int].1, actual@.1, bits));
        }
        if enclosures_intersect(expected, actual.enclosure()) {
            proof {
                assert(root_meets(vals[i as int], expv, bits));
            }
            if selected.is_some() {
                proof {
                    let s = selected->0;
                    assert(root_meets(vals[s as int], expv, bits));
                    assert(several_meet(vals, expv, bits));
                }
                multiple = true;
            } else {
                selected = Some(i);
            }
        } else {
            proof {
                assert(root_misses(vals[i as int], expv, bits));
            }
        }
        i = i + 1;
    }
    Ok((selected, multiple))
}

/// The root of `candidate` that is the sum (difference) of `lhs` and `rhs`: at precisions
/// `2^-bits` from `bits = 0` on, the one root whose enclosure meets the enclosure of
/// the operation; no root refuses with `NoTargetRoot`, and several move on to the next
/// precision.
#[verifier::rlimit(60)]
fn select_sum_root(candidate: Polynomial, lhs: &RealAlgebraic, rhs: &RealAlgebraic, subtract: bool) -> (r:
    Result<RealAlgebraic, AlgnumError>)
    ensures
        match r {
            Ok(a) => exists|vals: Seq<(Seq<int>, usize)>|
                #[trigger] candidate_roots(candidate@, vals) && chosen_alone(vals, lhs@, rhs@, subtract, a@),
            Err(e) => selection_failure(candidate@, lhs@, rhs@, subtract, e),
        },
{
    let ghost c = candidate@;
    let roots = candidate_roots_of(candidate)?;
    let ghost vals = certified_values(roots@);
    proof {
        assert(candidate_roots(c, vals));
        lemma_candidate_roots_degree(c, vals);
    }
    let mut bits: u32 = 0;
    loop
        invariant
            c == candidate@,
            vals == certified_values(roots@),
            candidate_roots(c, vals),
            forall|t: int| 0 <= t < vals.len() ==> #[trigger] vals[t].0.len() > 1,
            forall|b: u32| b < bits ==> #[trigger] crowded_at(vals, lhs@, rhs@, subtract, b),
        decreases u32::MAX - bits,
    {
        let expected = match sum_enclosure(lhs, rhs, subtract, result_selection_precision(bits)) {
            Ok(v) => v,
            Err(error) => {
                proof {
                    assert(sum_enclosure_failure(lhs@, rhs@, subtract, bits, error));
                }
                return Err(error);
            },
        };
        let (selected, multiple) = match scan_roots(&roots, &expected, bits) {
            Ok(v) => v,
            Err(error) => return Err(error),
        };
        if !multiple {
            match selected {
                None => {
                    proof {
                        assert(none_chosen(vals, lhs@, rhs@, subtract));
                    }
                    return Err(AlgnumError::NoTargetRoot);
                },
                Some(index) => {
                    let value = roots[index].value().try_clone()?;
                    proof {
                        assert(vals[index as int] == value@);
                        assert(chosen_alone(vals, lhs@, rhs@, subtract, value@));
                    }
                    return Ok(value);
                },
            }
        }
        proof {
            assert(crowded_at(vals, lhs@, rhs@, subtract, bits));
        }
        if bits == u32::MAX {
            let required = match BigUint::try_from(4294967296u64) {
                Ok(v) => v,
                Err(error) => return Err(AlgnumError::Bigint(error)),
            };
            return Err(AlgnumError::Bigint(BigintError::ExponentOverflow { required, maximum: u32::MAX }));
        }
        bits = bits + 1;
    }
}

/// What a sum (difference) of two real algebraic numbers gives: a root of a candidate
/// resultant, the one whose enclosure meets the enclosure of the operation.
pub open spec fn sum_outcome(
    lhs: (Seq<int>, usize),
    rhs: (Seq<int>, usize),
    subtract: bool,
    r: Result<RealAlgebraic, AlgnumError>,
) -> bool {
    match r {
        Ok(a) => exists|c: Seq<int>|
            #[trigger] sum_candidate(lhs.0, rhs.0, subtract, c) && exists|vals: Seq<(Seq<int>, usize)>|
                #[trigger] candidate_roots(c, vals) && chosen_alone(vals, lhs, rhs, subtract, a@),
        Err(e) => resource_failure(e) || exists|c: Seq<int>|
            #[trigger] sum_candidate(lhs.0, rhs.0, subtract, c) && selection_failure(c, lhs, rhs, subtract, e),
    }
}

impl RealAlgebraic {
    /// The sum: the root of the resultant in `y` of `p(y)` and `q(x - y)`, for the
    /// minimal polynomials `p` and `q`, whose enclosure alone meets the sum of the
    /// enclosures of the operands at some precision.
    pub fn add(&self, rhs: &Self) -> (r: Result<Self, AlgnumError>)
        ensures
            sum_outcome(self@, rhs@, false, r),
    {
        let left = constant_y_polynomial(self.minimal_polynomial().polynomial())?;
        let right = substitute_x_minus_y(rhs.minimal_polynomial().polynomial())?;
        let candidate = resultant(&left, &right)?;
        proof {
            assert(shifted_rows(rhs@.0, false, poly_views(right@)));
            assert(sum_candidate(self@.0, rhs@.0, false, candidate@));
        }
        select_sum_root(candidate, self, rhs, false)
    }

    /// The difference: the root of the resultant in `y` of `p(y)` and `q(y - x)` whose
    /// enclosure alone meets the difference of the enclosures of the operands at some
    /// precision.
    pub fn sub(&self, rhs: &Self) -> (r: Result<Self, AlgnumError>)
        ensures
            sum_outcome(self@, rhs@, true, r),
    {
        let left = constant_y_polynomial(self.minimal_polynomial().polynomial())?;
        let right = substitute_y_minus_x(rhs.minimal_polynomial().polynomial())?;
        let candidate = resultant(&left, &right)?;
        proof {
            assert(shifted_rows(rhs@.0, true, poly_views(right@)));
            assert(sum_candidate(self@.0, rhs@.0, true, candidate@));
        }
        select_sum_root(candidate, self, rhs, true)
    }
}

/// `d` is what the difference `lhs - rhs` selects.
pub open spec fn difference_of(lhs: (Seq<int>, usize), rhs: (Seq<int>, usize), d: (Seq<int>, usize)) -> bool {
    exists|c: Seq<int>|
        #[trigger] sum_candidate(lhs.0, rhs.0, true, c) && exists|vals: Seq<(Seq<int>, usize)>|
            #[trigger] candidate_roots(c, vals) && chosen_alone(vals, lhs, rhs, true, d)
}

/// Why the difference `lhs - rhs` failed.
pub open spec fn difference_failure(lhs: (Seq<int>, usize), rhs: (Seq<int>, usize), e: AlgnumError) -> bool {
    resource_failure(e) || exists|c: Seq<int>|
        #[trigger] sum_candidate(lhs.0, rhs.0, true, c) && selection_failure(c, lhs, rhs, true, e)
}

} // verus!
