//! Real algebraic numbers: a real root of an irreducible integer polynomial, named by its
//! position among that polynomial's real roots in increasing order, and arithmetic in
//! the quotient ring of the rational polynomials by the minimal polynomial.
use crate::algnum_error::{reserve_elements, resource_failure, AlgnumError, AllocationResource};
use crate::dyadic::{dyadic_le, dyadic_normal, is_greater, Dyadic, DyadicEnclosure};
use crate::error::BigintError;
use crate::factorization::{
    factor_views, factorization_failure, factors_sorted, no_kronecker_factor, product_of,
    IrreduciblePolynomial,
};
use crate::integer::{BigInt, Sign};
use crate::isolation::{
    certified_root, certify_outcome, increases_on_bound_interval, misses_isolated_roots, no_target,
    split_may_overflow, enclosure_width, is_nonroot_interval_from, isolates_one,
    isolates_roots_in, isolation_failure, refine_failure, root_bound, root_views,
};
use crate::limbs::{lemma_weight_zero, limb_count, normalized, seq_value};
use crate::natural::BigUint;
use crate::polynomial::{
    gcd_leaves_remainder, int_values, product_failure, rat_add_sub, square_free_of, rat_div_rem, rat_poly_mul, rational_failure, Polynomial,
    RationalPolynomial, SquareFreePolynomial, poly_eval_rat,
};
use crate::rational::ReducedRational;
use crate::sturm::{
    counts_roots, dyadic_lt, dyadic_rational, dyadic_value, is_root_at, refused_as, split_failure, sturm_sequence_of,
    variations, SturmSequence,
};
use vstd::prelude::*;

verus! {

/// The position of a real root among the real roots of its polynomial, from the
/// smallest, counted from zero.
#[derive(Clone, Copy, Debug, Eq, Hash, Ord, PartialEq, PartialOrd, Structural)]
pub struct RootIndex(usize);

impl View for RootIndex {
    type V = usize;

    closed spec fn view(&self) -> usize {
        self.0
    }
}

impl RootIndex {
    /// The position.
    pub fn get(&self) -> (r: usize)
        ensures
            r == self@,
    {
        self.0
    }

    /// The position `index`.
    pub fn new(index: usize) -> (r: Self)
        ensures
            r@ == index,
    {
        Self(index)
    }
}

/// The coefficients of an integer polynomial as rationals.
pub open spec fn as_rational(p: Seq<int>) -> Seq<(int, nat)> {
    Seq::new(p.len(), |i: int| (p[i], 1nat))
}

/// The remainder of `value` modulo the integer polynomial `modulus`.
pub open spec fn reduced_modulo(value: Seq<(int, nat)>, modulus: Seq<int>) -> Seq<(int, nat)> {
    rat_div_rem(value, as_rational(modulus)).1
}

/// What a reduction modulo `modulus` may fail with: for want of resources, or division
/// by zero when the modulus is the zero polynomial.
pub open spec fn reduction_failure(modulus: Seq<int>, e: AlgnumError) -> bool {
    ||| rational_failure(e)
    ||| (e == AlgnumError::Bigint(BigintError::DivisionByZero) && modulus.len() == 0)
}

/// The outcome of a reduction of `value` modulo `modulus`.
pub open spec fn reduces_to(
    modulus: Seq<int>,
    value: Seq<(int, nat)>,
    r: Result<RationalPolynomial, AlgnumError>,
) -> bool {
    match r {
        Ok(v) => modulus.len() > 0 && v@ == reduced_modulo(value, modulus) && v@.len() < modulus.len(),
        Err(e) => reduction_failure(modulus, e),
    }
}

/// A value of lower degree than the modulus is its own remainder; so, since every
/// reduction gives one, reducing twice gives what reducing once gives.
pub proof fn lemma_reduced_value_is_fixed(value: Seq<(int, nat)>, modulus: Seq<int>)
    requires
        value.len() < modulus.len(),
    ensures
        reduced_modulo(value, modulus) == value,
{
}

/// The minimal polynomial of a real algebraic number.
#[derive(Debug, Eq, PartialEq)]
pub struct MinimalPolynomial {
    polynomial: IrreduciblePolynomial,
}

impl View for MinimalPolynomial {
    type V = Seq<int>;

    closed spec fn view(&self) -> Seq<int> {
        self.polynomial@
    }
}

impl MinimalPolynomial {
    /// The polynomial.
    pub fn polynomial(&self) -> (r: &Polynomial)
        ensures
            r@ == self@,
    {
        self.polynomial.polynomial()
    }

    /// An independent copy.
    pub fn try_clone(&self) -> (r: Result<Self, AlgnumError>)
        ensures
            match r {
                Ok(v) => v@ == self@,
                Err(e) => resource_failure(e),
            },
    {
        Ok(Self { polynomial: self.polynomial.try_clone()? })
    }

    /// The quotient ring by this polynomial.
    pub fn quotient(&self) -> (r: Result<PolynomialQuotient, AlgnumError>)
        ensures
            match r {
                Ok(v) => v@ == self@,
                Err(e) => resource_failure(e),
            },
    {
        Ok(PolynomialQuotient { minimal_polynomial: self.try_clone()? })
    }

    /// The minimal polynomial `polynomial`.
    pub fn new(polynomial: IrreduciblePolynomial) -> (r: Self)
        ensures
            r@ == polynomial@,
    {
        Self { polynomial }
    }
}

/// The rational polynomials modulo a minimal polynomial.
#[derive(Debug, Eq, PartialEq)]
pub struct PolynomialQuotient {
    minimal_polynomial: MinimalPolynomial,
}

impl View for PolynomialQuotient {
    type V = Seq<int>;

    closed spec fn view(&self) -> Seq<int> {
        self.minimal_polynomial@
    }
}

impl PolynomialQuotient {
    /// The modulus.
    pub fn minimal_polynomial(&self) -> (r: &MinimalPolynomial)
        ensures
            r@ == self@,
    {
        &self.minimal_polynomial
    }

    /// An independent copy.
    pub fn try_clone(&self) -> (r: Result<Self, AlgnumError>)
        ensures
            match r {
                Ok(v) => v@ == self@,
                Err(e) => resource_failure(e),
            },
    {
        Ok(Self { minimal_polynomial: self.minimal_polynomial.try_clone()? })
    }

    /// The remainder of `value` on division by the modulus.
    pub fn reduce(&self, value: &RationalPolynomial) -> (r: Result<RationalPolynomial, AlgnumError>)
        ensures
            reduces_to(self@, value@, r),
    {
        let modulus = RationalPolynomial::from_integer(self.minimal_polynomial.polynomial())?;
        proof {
            assert(modulus@ == as_rational(self@));
        }
        match value.div_rem(&modulus) {
            Ok((_, remainder)) => Ok(remainder),
            Err(error) => Err(error),
        }
    }

    /// The sum, reduced.
    pub fn add(&self, lhs: &RationalPolynomial, rhs: &RationalPolynomial) -> (r: Result<
        RationalPolynomial,
        AlgnumError,
    >)
        ensures
            reduces_to(self@, rat_add_sub(lhs@, rhs@, false), r),
    {
        let sum = lhs.add(rhs)?;
        self.reduce(&sum)
    }

    /// The difference, reduced.
    pub fn sub(&self, lhs: &RationalPolynomial, rhs: &RationalPolynomial) -> (r: Result<
        RationalPolynomial,
        AlgnumError,
    >)
        ensures
            reduces_to(self@, rat_add_sub(lhs@, rhs@, true), r),
    {
        let difference = lhs.sub(rhs)?;
        self.reduce(&difference)
    }

    /// The product, reduced.
    pub fn mul(&self, lhs: &RationalPolynomial, rhs: &RationalPolynomial) -> (r: Result<
        RationalPolynomial,
        AlgnumError,
    >)
        ensures
            match r {
                Ok(v) => self@.len() > 0 && v@ == reduced_modulo(rat_poly_mul(lhs@, rhs@), self@),
                Err(e) => product_failure(e) || reduction_failure(self@, e),
            },
    {
        let product = lhs.mul(rhs)?;
        self.reduce(&product)
    }

    /// The class of `x`, which generates the quotient.
    pub fn generator(&self) -> (r: Result<GeneratorRepresentative, AlgnumError>)
        ensures
            match r {
                Ok(v) => v@ == self@,
                Err(e) => resource_failure(e),
            },
    {
        Ok(GeneratorRepresentative { minimal_polynomial: self.minimal_polynomial.try_clone()? })
    }
}

/// The class of `x` modulo a minimal polynomial.
#[derive(Debug, Eq, PartialEq)]
pub struct GeneratorRepresentative {
    minimal_polynomial: MinimalPolynomial,
}

impl View for GeneratorRepresentative {
    type V = Seq<int>;

    closed spec fn view(&self) -> Seq<int> {
        self.minimal_polynomial@
    }
}

/// The polynomial `x` with rational coefficients.
pub open spec fn rational_x() -> Seq<(int, nat)> {
    seq![(0int, 1nat), (1int, 1nat)]
}

impl GeneratorRepresentative {
    /// The modulus.
    pub fn minimal_polynomial(&self) -> (r: &MinimalPolynomial)
        ensures
            r@ == self@,
    {
        &self.minimal_polynomial
    }

    /// An independent copy.
    pub fn try_clone(&self) -> (r: Result<Self, AlgnumError>)
        ensures
            match r {
                Ok(v) => v@ == self@,
                Err(e) => resource_failure(e),
            },
    {
        Ok(Self { minimal_polynomial: self.minimal_polynomial.try_clone()? })
    }

    /// `x` reduced modulo the minimal polynomial.
    pub fn as_polynomial(&self) -> (r: Result<RationalPolynomial, AlgnumError>)
        ensures
            match r {
                Ok(v) => self@.len() > 0 && v@ == reduced_modulo(rational_x(), self@),
                Err(e) => resource_failure(e) || reduction_failure(self@, e),
            },
    {
        let zero = match ReducedRational::from_bigint(BigInt::zero()) {
            Ok(v) => v,
            Err(error) => return Err(AlgnumError::Bigint(error)),
        };
        let unit = match BigInt::one() {
            Ok(v) => v,
            Err(error) => return Err(AlgnumError::Bigint(error)),
        };
        let one = match ReducedRational::from_bigint(unit) {
            Ok(v) => v,
            Err(error) => return Err(AlgnumError::Bigint(error)),
        };
        let mut coefficients: Vec<ReducedRational> = Vec::new();
        reserve_elements(&mut coefficients, 2, AllocationResource::RationalCoefficients)?;
        coefficients.push(zero);
        coefficients.push(one);
        let x = RationalPolynomial::from_coefficients(coefficients);
        proof {
            assert(x@ == rational_x());
        }
        self.minimal_polynomial.quotient()?.reduce(&x)
    }
}

/// A real root of a minimal polynomial, named by its position among the real roots.
#[derive(Debug, Eq, PartialEq)]
pub struct RealAlgebraic {
    minimal_polynomial: MinimalPolynomial,
    root_index: RootIndex,
}

impl View for RealAlgebraic {
    type V = (Seq<int>, usize);

    closed spec fn view(&self) -> (Seq<int>, usize) {
        (self.minimal_polynomial@, self.root_index@)
    }
}

/// Limbs of a normalized natural number read one exactly when they are the single limb one.
proof fn lemma_unit_limbs(s: Seq<u32>)
    requires
        normalized(s),
        s.len() == limb_count(seq_value(s)),
    ensures
        (seq_value(s) == 1) == (s.len() == 1 && s[0] == 1),
{
    lemma_weight_zero();
    if s.len() == 1 {
        assert(seq_value(s) == s[0] as nat) by {
            reveal_with_fuel(crate::limbs::prefix_value, 2);
        }
    }
    if seq_value(s) == 1 {
        assert(limb_count(1) == 1) by {
            reveal_with_fuel(limb_count, 2);
        }
        assert(seq_value(s) == s[0] as nat) by {
            reveal_with_fuel(crate::limbs::prefix_value, 2);
        }
    }
}

/// Whether a natural number is one.
fn is_unit_magnitude(magnitude: &BigUint) -> (r: bool)
    ensures
        r == (magnitude@ == 1),
{
    let limbs = magnitude.limbs_le();
    proof {
        use_type_invariant(magnitude);
        magnitude.lemma_shape();
        lemma_unit_limbs(magnitude.limbs_view());
    }
    limbs.len() == 1 && limbs[0] == 1
}

/// Whether an integer is one.
fn is_unit(value: &BigInt) -> (r: bool)
    ensures
        r == (value@ == 1),
{
    value.sign() == Sign::Positive && is_unit_magnitude(value.magnitude())
}

/// Whether an integer is minus one.
fn is_negative_unit(value: &BigInt) -> (r: bool)
    ensures
        r == (value@ == -1),
{
    value.sign() == Sign::Negative && is_unit_magnitude(value.magnitude())
}

impl RealAlgebraic {
    /// The minimal polynomial.
    pub fn minimal_polynomial(&self) -> (r: &MinimalPolynomial)
        ensures
            r@ == self@.0,
    {
        &self.minimal_polynomial
    }

    /// The position of the root.
    pub fn root_index(&self) -> (r: RootIndex)
        ensures
            r@ == self@.1,
    {
        self.root_index
    }

    /// An independent copy.
    pub fn try_clone(&self) -> (r: Result<Self, AlgnumError>)
        ensures
            match r {
                Ok(v) => v@ == self@,
                Err(e) => resource_failure(e),
            },
    {
        Ok(Self { minimal_polynomial: self.minimal_polynomial.try_clone()?, root_index: self.root_index })
    }

    /// Whether this is zero: the only root of `x`.
    pub fn is_zero(&self) -> (r: bool)
        ensures
            r == (self@.0 == seq![0int, 1int] && self@.1 == 0),
    {
        let coefficients = self.minimal_polynomial.polynomial().coefficients();
        let r = coefficients.len() == 2 && coefficients[0].is_zero() && is_unit(&coefficients[1])
            && self.root_index.0 == 0;
        proof {
            assert(int_values(coefficients@) == self@.0);
            if self@.0 == seq![0int, 1int] {
                assert(int_values(coefficients@).len() == 2);
                assert(int_values(coefficients@)[0] == coefficients@[0]@);
                assert(int_values(coefficients@)[1] == coefficients@[1]@);
            }
            if coefficients.len() == 2 {
                assert(self@.0 =~= seq![coefficients@[0]@, coefficients@[1]@]);
            }
        }
        r
    }

    /// Whether this is one: the only root of `x - 1`.
    pub fn is_one(&self) -> (r: bool)
        ensures
            r == (self@.0 == seq![-1int, 1int] && self@.1 == 0),
    {
        let coefficients = self.minimal_polynomial.polynomial().coefficients();
        let r = coefficients.len() == 2 && is_negative_unit(&coefficients[0]) && is_unit(
            &coefficients[1],
        ) && self.root_index.0 == 0;
        proof {
            assert(int_values(coefficients@) == self@.0);
            if self@.0 == seq![-1int, 1int] {
                assert(int_values(coefficients@).len() == 2);
                assert(int_values(coefficients@)[0] == coefficients@[0]@);
                assert(int_values(coefficients@)[1] == coefficients@[1]@);
            }
            if coefficients.len() == 2 {
                assert(self@.0 =~= seq![coefficients@[0]@, coefficients@[1]@]);
            }
        }
        r
    }

    /// Root `root_index` of `minimal_polynomial`.
    pub fn new(minimal_polynomial: MinimalPolynomial, root_index: RootIndex) -> (r: Self)
        ensures
            r@ == (minimal_polynomial@, root_index@),
    {
        Self { minimal_polynomial, root_index }
    }
}

/// A real algebraic number with an interval that isolates it among the real roots of
/// its minimal polynomial.
#[derive(Debug, Eq, PartialEq)]
pub struct CertifiedAlgebraic {
    value: RealAlgebraic,
    enclosure: DyadicEnclosure,
}

impl View for CertifiedAlgebraic {
    type V = ((Seq<int>, usize), ((int, nat), (int, nat)));

    closed spec fn view(&self) -> ((Seq<int>, usize), ((int, nat), (int, nat))) {
        (self.value@, self.enclosure@)
    }
}

impl CertifiedAlgebraic {
    /// The number.
    pub fn value(&self) -> (r: &RealAlgebraic)
        ensures
            r@ == self@.0,
    {
        &self.value
    }

    /// The isolating interval.
    pub fn enclosure(&self) -> (r: &DyadicEnclosure)
        ensures
            r@ == self@.1,
    {
        &self.enclosure
    }

    /// An independent copy.
    pub fn try_clone(&self) -> (r: Result<Self, AlgnumError>)
        ensures
            match r {
                Ok(v) => v@ == self@,
                Err(e) => resource_failure(e),
            },
    {
        let value = self.value.try_clone()?;
        let enclosure = match self.enclosure.try_clone() {
            Ok(v) => v,
            Err(error) => return Err(AlgnumError::Bigint(error)),
        };
        Ok(Self { value, enclosure })
    }

    /// The number, without its interval.
    pub fn into_value(self) -> (r: RealAlgebraic)
        ensures
            r@ == self@.0,
    {
        self.value
    }

    /// `value` with the interval `enclosure`.
    pub fn new(value: RealAlgebraic, enclosure: DyadicEnclosure) -> (r: Self)
        ensures
            r@ == (value@, enclosure@),
    {
        Self { value, enclosure }
    }
}

/// A real algebraic number with an interval around it, narrowed on request.
#[derive(Debug, Eq, PartialEq)]
pub struct IsolatingInterval {
    value: RealAlgebraic,
    enclosure: DyadicEnclosure,
}

impl View for IsolatingInterval {
    type V = ((Seq<int>, usize), ((int, nat), (int, nat)));

    closed spec fn view(&self) -> ((Seq<int>, usize), ((int, nat), (int, nat))) {
        (self.value@, self.enclosure@)
    }
}

impl IsolatingInterval {
    /// The number.
    pub fn value(&self) -> (r: &RealAlgebraic)
        ensures
            r@ == self@.0,
    {
        &self.value
    }

    /// The interval.
    pub fn enclosure(&self) -> (r: &DyadicEnclosure)
        ensures
            r@ == self@.1,
    {
        &self.enclosure
    }

    /// An independent copy.
    pub fn try_clone(&self) -> (r: Result<Self, AlgnumError>)
        ensures
            match r {
                Ok(v) => v@ == self@,
                Err(e) => resource_failure(e),
            },
    {
        let value = self.value.try_clone()?;
        let enclosure = match self.enclosure.try_clone() {
            Ok(v) => v,
            Err(error) => return Err(AlgnumError::Bigint(error)),
        };
        Ok(Self { value, enclosure })
    }

    /// The same number with its interval narrowed, by the Sturm sequence of the minimal
    /// polynomial, to a width of at most `2^-bits`.
    pub fn refine(&self, bits: u32) -> (r: Result<Self, AlgnumError>)
        ensures
            self@.0.0.len() <= 1 ==> r == Err::<IsolatingInterval, AlgnumError>(
                AlgnumError::ZeroPolynomial,
            ),
            self@.0.0.len() > 1 ==> match r {
                Ok(v) => {
                    let s = sturm_sequence_of(self@.0.0);
                    &&& v@.0 == self@.0
                    &&& isolates_one(s, self@.1)
                    &&& isolates_one(s, v@.1)
                    &&& dyadic_le(self@.1.0, v@.1.0)
                    &&& dyadic_le(v@.1.1, self@.1.1)
                    &&& dyadic_le(enclosure_width(v@.1), dyadic_normal(1, bits as nat))
                },
                Err(e) => product_failure(e) || refine_failure(sturm_sequence_of(self@.0.0), self@.1, e),
            },
            self@.0.0.len() > 1 && !isolates_one(sturm_sequence_of(self@.0.0), self@.1) ==> refused_as(
                r,
                AlgnumError::InvalidIsolation,
            ),
    {
        let sequence = SturmSequence::new(self.value.minimal_polynomial().polynomial())?;
        let value = self.value.try_clone()?;
        let enclosure = sequence.refine(&self.enclosure, bits)?;
        Ok(Self { value, enclosure })
    }

    /// `value` with the interval `enclosure`.
    pub fn new(value: RealAlgebraic, enclosure: DyadicEnclosure) -> (r: Self)
        ensures
            r@ == (value@, enclosure@),
    {
        Self { value, enclosure }
    }
}

/// The positions and isolating intervals of certified roots.
pub open spec fn certified_views(s: Seq<CertifiedAlgebraic>) -> Seq<(usize, ((int, nat), (int, nat)))> {
    Seq::new(s.len(), |i: int| (s[i]@.0.1, s[i]@.1))
}

impl IrreduciblePolynomial {
    /// The real roots, in increasing order, each with an interval that isolates it, by
    /// the Sturm sequence of the polynomial; a zero or constant polynomial is refused.
    pub fn isolate_real_roots(&self) -> (r: Result<Vec<CertifiedAlgebraic>, AlgnumError>)
        ensures
            self@.len() <= 1 ==> r == Err::<Vec<CertifiedAlgebraic>, AlgnumError>(
                AlgnumError::ZeroPolynomial,
            ),
            self@.len() > 1 ==> match r {
                Ok(roots) => (forall|i: int|
                    0 <= i < roots@.len() ==> (#[trigger] roots@[i])@.0.0 == self@) && exists|
                    lower: (int, nat),
                    upper: (int, nat),
                |
                    #[trigger] is_nonroot_interval_from(
                        sturm_sequence_of(self@),
                        root_bound(sturm_sequence_of(self@)[0]),
                        lower,
                        upper,
                    ) && isolates_roots_in(
                        sturm_sequence_of(self@),
                        lower,
                        upper,
                        certified_views(roots@),
                    ),
                Err(e) => product_failure(e) || isolation_failure(sturm_sequence_of(self@), e),
            },
    {
        let sequence = SturmSequence::new(self.polynomial())?;
        let roots = sequence.isolate_real_roots()?;
        let mut result: Vec<CertifiedAlgebraic> = Vec::new();
        reserve_elements(&mut result, roots.len(), AllocationResource::RootCandidates)?;
        let mut i: usize = 0;
        while i < roots.len()
            invariant
                self@.len() > 1,
                i <= roots@.len(),
                result@.len() == i,
                forall|k: int|
                    0 <= k < i ==> (#[trigger] result@[k])@.0.0 == self@ && result@[k]@.0.1
                        == roots@[k].index && result@[k]@.1 == roots@[k].enclosure@,
            decreases roots@.len() - i,
        {
            let minimal = MinimalPolynomial::new(self.try_clone()?);
            let enclosure = match roots[i].enclosure.try_clone() {
                Ok(v) => v,
                Err(error) => return Err(AlgnumError::Bigint(error)),
            };
            let value = RealAlgebraic::new(minimal, RootIndex::new(roots[i].index));
            result.push(CertifiedAlgebraic::new(value, enclosure));
            i = i + 1;
        }
        proof {
            assert(certified_views(result@) =~= root_views(roots@));
        }
        Ok(result)
    }

    /// The root in `(lower, upper)`, which must hold exactly one by the Sturm sequence,
    /// with the part of its isolating interval inside `(lower, upper)`.
    pub fn certify_root(&self, lower: Dyadic, upper: Dyadic) -> (r: Result<CertifiedAlgebraic, AlgnumError>)
        ensures
            self@.len() <= 1 ==> r == Err::<CertifiedAlgebraic, AlgnumError>(
                AlgnumError::ZeroPolynomial,
            ),
            self@.len() > 1 ==> match r {
                Ok(c) => c@.0.0 == self@ && isolates_one(sturm_sequence_of(self@), (lower@, upper@))
                    && certified_root(sturm_sequence_of(self@), lower@, upper@, c@.0.1, c@.1),
                Err(e) => product_failure(e) || split_failure(e) || e is MultipleTargetRoots,
            },
            self@.len() > 1 && !dyadic_lt(lower@, upper@) ==> refused_as(
                r,
                AlgnumError::InvalidIsolation,
            ),
            self@.len() > 1 && dyadic_lt(lower@, upper@) && (is_root_at(
                sturm_sequence_of(self@),
                lower@,
            ) || is_root_at(sturm_sequence_of(self@), upper@)) ==> refused_as(
                r,
                AlgnumError::InvalidIsolation,
            ),
            self@.len() > 1 && counts_roots(sturm_sequence_of(self@), lower@, upper@) && variations(
                sturm_sequence_of(self@),
                lower@,
            ) == variations(sturm_sequence_of(self@), upper@) ==> refused_as(
                r,
                AlgnumError::NoTargetRoot,
            ),
            self@.len() > 1 && counts_roots(sturm_sequence_of(self@), lower@, upper@) && variations(
                sturm_sequence_of(self@),
                lower@,
            ) - variations(sturm_sequence_of(self@), upper@) >= 2 ==> refused_as(
                r,
                AlgnumError::MultipleTargetRoots,
            ),
            self@.len() > 1 && isolates_one(sturm_sequence_of(self@), (lower@, upper@))
                ==> certify_outcome(sturm_sequence_of(self@), lower@, upper@, r),
            self@.len() > 1 && dyadic_lt(lower@, upper@) && !is_root_at(sturm_sequence_of(self@), lower@)
                && !is_root_at(sturm_sequence_of(self@), upper@) && !counts_roots(
                sturm_sequence_of(self@),
                lower@,
                upper@,
            ) ==> refused_as(r, AlgnumError::InvalidIsolation),
            r == Err::<CertifiedAlgebraic, AlgnumError>(AlgnumError::NoTargetRoot) ==> self@.len() > 1
                && no_target(sturm_sequence_of(self@), lower@, upper@),
    {
        let sequence = SturmSequence::new(self.polynomial())?;
        let root = sequence.certify_root(lower, upper)?;
        let minimal = MinimalPolynomial::new(self.try_clone()?);
        let value = RealAlgebraic::new(minimal, RootIndex::new(root.index));
        Ok(CertifiedAlgebraic::new(value, root.enclosure))
    }
}

/// `e` is the interval that some isolation of the real roots gives root `index`.
pub open spec fn root_interval(s: Seq<Seq<int>>, index: usize, e: ((int, nat), (int, nat))) -> bool {
    exists|l: (int, nat), u: (int, nat), roots: Seq<(usize, ((int, nat), (int, nat)))>|
        #![trigger is_nonroot_interval_from(s, root_bound(s[0]), l, u), isolates_roots_in(s, l, u, roots)]
        is_nonroot_interval_from(s, root_bound(s[0]), l, u) && isolates_roots_in(s, l, u, roots)
            && index < roots.len() && roots[index as int].1 == e
}

/// Some isolation of the real roots finds no more than `index` of them.
pub open spec fn beyond_roots(s: Seq<Seq<int>>, index: usize) -> bool {
    exists|l: (int, nat), u: (int, nat), roots: Seq<(usize, ((int, nat), (int, nat)))>|
        #![trigger is_nonroot_interval_from(s, root_bound(s[0]), l, u), isolates_roots_in(s, l, u, roots)]
        is_nonroot_interval_from(s, root_bound(s[0]), l, u) && isolates_roots_in(s, l, u, roots)
            && index >= roots.len()
}

/// `e` lies in the interval of root `index`, holds one root and is at most `2^-bits` wide.
pub open spec fn encloses_root(s: Seq<Seq<int>>, index: usize, e: ((int, nat), (int, nat)), bits: u32) -> bool {
    exists|start: ((int, nat), (int, nat))|
        #[trigger] root_interval(s, index, start) && isolates_one(s, e) && dyadic_le(start.0, e.0)
            && dyadic_le(e.1, start.1) && dyadic_le(enclosure_width(e), dyadic_normal(1, bits as nat))
}

/// Why an enclosure of root `index` failed.
pub open spec fn enclose_failure(s: Seq<Seq<int>>, index: usize, e: AlgnumError) -> bool {
    ||| product_failure(e)
    ||| isolation_failure(s, e)
    ||| (e is NoTargetRoot && beyond_roots(s, index))
    ||| exists|start: ((int, nat), (int, nat))|
        #[trigger] root_interval(s, index, start) && refine_failure(s, start, e)
}

impl RealAlgebraic {
    /// This number with an interval of width at most `2^-bits` around it: the interval
    /// that isolates its root, refined by the Sturm sequence of the minimal polynomial.
    pub fn enclose(&self, bits: u32) -> (r: Result<IsolatingInterval, AlgnumError>)
        ensures
            self@.0.len() <= 1 ==> r == Err::<IsolatingInterval, AlgnumError>(
                AlgnumError::ZeroPolynomial,
            ),
            self@.0.len() > 1 ==> match r {
                Ok(v) => v@.0 == self@ && encloses_root(sturm_sequence_of(self@.0), self@.1, v@.1, bits),
                Err(e) => enclose_failure(sturm_sequence_of(self@.0), self@.1, e),
            },
    {
        let ghost p = self@.0;
        let ghost index = self@.1;
        let sequence = SturmSequence::new(self.minimal_polynomial.polynomial())?;
        let ghost s = sequence@;
        let roots = match sequence.isolate_real_roots() {
            Ok(v) => v,
            Err(error) => return Err(error),
        };
        let ghost views = root_views(roots@);
        let ghost (l, u): ((int, nat), (int, nat)) = choose|l: (int, nat), u: (int, nat)|
            #[trigger] is_nonroot_interval_from(s, root_bound(s[0]), l, u) && isolates_roots_in(
                s,
                l,
                u,
                views,
            );
        let mut k: usize = 0;
        while k < roots.len() && roots[k].index != self.root_index.0
            invariant
                k <= roots@.len(),
                index == self.root_index.0,
                views == root_views(roots@),
                isolates_roots_in(s, l, u, views),
                forall|j: int| 0 <= j < k ==> roots@[j].index != index,
            decreases roots@.len() - k,
        {
            k = k + 1;
        }
        if k == roots.len() {
            proof {
                if index < roots@.len() {
                    assert(views[index as int].0 == index);
                    assert(roots@[index as int].index == index);
                }
                assert(beyond_roots(s, index));
            }
            return Err(AlgnumError::NoTargetRoot);
        }
        proof {
            assert(views[k as int].0 == k);
            assert(root_interval(s, index, views[k as int].1));
        }
        let enclosure = match sequence.refine(&roots[k].enclosure, bits) {
            Ok(v) => v,
            Err(error) => return Err(error),
        };
        let value = self.try_clone()?;
        Ok(IsolatingInterval::new(value, enclosure))
    }
}

/// `factors`, sorted and with no factor that Kronecker's search splits, multiply to `p`.
pub open spec fn canonical_factorization(p: Seq<int>, factors: Seq<Seq<int>>) -> bool {
    &&& product_of(factors) == p
    &&& factors_sorted(factors)
    &&& forall|i: int| 0 <= i < factors.len() ==> no_kronecker_factor(#[trigger] factors[i])
}

/// Some isolation of the real roots of `p` by its Sturm sequence finds `count` of them.
pub open spec fn isolates_count(p: Seq<int>, count: int) -> bool {
    exists|l: (int, nat), u: (int, nat), roots: Seq<(usize, ((int, nat), (int, nat)))>|
        #![trigger is_nonroot_interval_from(sturm_sequence_of(p), root_bound(sturm_sequence_of(p)[0]), l, u), isolates_roots_in(sturm_sequence_of(p), l, u, roots)]
        is_nonroot_interval_from(sturm_sequence_of(p), root_bound(sturm_sequence_of(p)[0]), l, u)
            && isolates_roots_in(sturm_sequence_of(p), l, u, roots) && roots.len() == count
}

/// `a` is the smallest real root of the first factor of a canonical factorization of the
/// square-free part of `p`.
pub open spec fn first_root_of(p: Seq<int>, a: (Seq<int>, usize)) -> bool {
    exists|factors: Seq<Seq<int>>|
        #[trigger] canonical_factorization(square_free_of(p), factors) && factors.len() > 0
            && factors[0].len() > 1 && a == (factors[0], 0usize) && exists|count: int|
            #[trigger] isolates_count(factors[0], count) && count > 0
}

/// Why the first root of the square-free part of `p` was not found: the square-free
/// part or the factorization failed, or a canonical factorization has no factor, a
/// constant first factor, a first factor without real roots, or one whose isolation
/// failed.
pub open spec fn first_root_failure(p: Seq<int>, e: AlgnumError) -> bool {
    ||| rational_failure(e)
    ||| (e == AlgnumError::Bigint(BigintError::NonExactDivision) && gcd_leaves_remainder(p))
    ||| factorization_failure(e)
    ||| exists|factors: Seq<Seq<int>>|
        #[trigger] canonical_factorization(square_free_of(p), factors) && {
            ||| factors.len() == 0 && e is NoTargetRoot
            ||| factors.len() > 0 && factors[0].len() <= 1 && e is ZeroPolynomial
            ||| factors.len() > 0 && factors[0].len() > 1 && (product_failure(e) || isolation_failure(
                sturm_sequence_of(factors[0]),
                e,
            ) || (e is NoTargetRoot && isolates_count(factors[0], 0)))
        }
}

impl RealAlgebraic {
    /// The smallest real root of the first factor of the square-free part of
    /// `polynomial`, which has positive degree.
    fn first_real_root(polynomial: Polynomial) -> (r: Result<Self, AlgnumError>)
        requires
            polynomial@.len() > 1,
        ensures
            match r {
                Ok(a) => first_root_of(polynomial@, a@),
                Err(e) => first_root_failure(polynomial@, e),
            },
    {
        let ghost p = polynomial@;
        let candidate = polynomial.candidate()?;
        let square_free = candidate.square_free()?;
        let factors = square_free.factor()?;
        let ghost fs = factor_views(factors@);
        proof {
            assert(canonical_factorization(square_free_of(p), fs));
        }
        if factors.len() == 0 {
            return Err(AlgnumError::NoTargetRoot);
        }
        proof {
            assert(fs[0] == factors@[0]@);
        }
        let mut roots = match factors[0].isolate_real_roots() {
            Ok(v) => v,
            Err(error) => return Err(error),
        };
        proof {
            if fs[0].len() > 1 {
                let (l, u): ((int, nat), (int, nat)) = choose|l: (int, nat), u: (int, nat)|
                    #[trigger] is_nonroot_interval_from(
                        sturm_sequence_of(fs[0]),
                        root_bound(sturm_sequence_of(fs[0])[0]),
                        l,
                        u,
                    ) && isolates_roots_in(sturm_sequence_of(fs[0]), l, u, certified_views(roots@));
                assert(isolates_count(fs[0], roots@.len() as int));
            }
        }
        if roots.len() == 0 {
            return Err(AlgnumError::NoTargetRoot);
        }
        proof {
            assert(certified_views(roots@)[0].0 == 0);
        }
        let first = roots.remove(0);
        Ok(first.into_value())
    }

    /// The integer `value`: the root of `x - value`.
    pub fn from_integer(value: BigInt) -> (r: Result<Self, AlgnumError>)
        ensures
            match r {
                Ok(a) => first_root_of(seq![-value@, 1int], a@),
                Err(e) => first_root_failure(seq![-value@, 1int], e) || resource_failure(e),
            },
    {
        let one = match BigInt::one() {
            Ok(v) => v,
            Err(error) => return Err(AlgnumError::Bigint(error)),
        };
        let negated = match value.negated() {
            Ok(v) => v,
            Err(error) => return Err(AlgnumError::Bigint(error)),
        };
        let polynomial = Polynomial::from_coefficients(vec![negated, one]);
        proof {
            assert(polynomial@ =~= seq![-value@, 1int]);
        }
        Self::first_real_root(polynomial)
    }

    /// The rational `value`: the root of `denominator * x - numerator`.
    pub fn from_reduced_rational(value: &ReducedRational) -> (r: Result<Self, AlgnumError>)
        ensures
            match r {
                Ok(a) => first_root_of(linear_for(value@), a@),
                Err(e) => first_root_failure(linear_for(value@), e) || resource_failure(e),
            },
    {
        proof {
            use_type_invariant(value);
        }
        let magnitude = match value.denominator().try_clone() {
            Ok(v) => v,
            Err(error) => return Err(AlgnumError::Bigint(error)),
        };
        let denominator = BigInt::from_sign_magnitude(Sign::Positive, magnitude);
        let negated = match value.numerator().negated() {
            Ok(v) => v,
            Err(error) => return Err(AlgnumError::Bigint(error)),
        };
        let polynomial = Polynomial::from_coefficients(vec![negated, denominator]);
        proof {
            assert(polynomial@ =~= linear_for(value@));
        }
        Self::first_real_root(polynomial)
    }
}

/// The integer polynomial `d x - n` whose root is the rational `n / d`.
pub open spec fn linear_for(value: (int, nat)) -> Seq<int> {
    seq![-value.0, value.1 as int]
}

/// The coefficients of a rational polynomial as real algebraic numbers.
#[derive(Debug, Eq, PartialEq)]
pub struct RationalCoefficientConversion {
    coefficients: Vec<RealAlgebraic>,
}

/// The views of real algebraic numbers.
pub open spec fn algebraic_views(s: Seq<RealAlgebraic>) -> Seq<(Seq<int>, usize)> {
    Seq::new(s.len(), |i: int| s[i]@)
}

impl View for RationalCoefficientConversion {
    type V = Seq<(Seq<int>, usize)>;

    closed spec fn view(&self) -> Seq<(Seq<int>, usize)> {
        algebraic_views(self.coefficients@)
    }
}

impl RationalCoefficientConversion {
    /// The coefficients, lowest degree first.
    pub fn coefficients(&self) -> (r: &[RealAlgebraic])
        ensures
            algebraic_views(r@) == self@,
    {
        self.coefficients.as_slice()
    }

    /// The coefficients, lowest degree first, taken out.
    pub fn into_coefficients(self) -> (r: Vec<RealAlgebraic>)
        ensures
            algebraic_views(r@) == self@,
    {
        self.coefficients
    }

    /// An independent copy.
    pub fn try_clone(&self) -> (r: Result<Self, AlgnumError>)
        ensures
            match r {
                Ok(v) => v@ == self@,
                Err(e) => resource_failure(e),
            },
    {
        let mut coefficients: Vec<RealAlgebraic> = Vec::new();
        reserve_elements(&mut coefficients, self.coefficients.len(), AllocationResource::RationalCoefficients)?;
        let mut i: usize = 0;
        while i < self.coefficients.len()
            invariant
                i <= self.coefficients@.len(),
                coefficients@.len() == i,
                forall|k: int| 0 <= k < i ==> (#[trigger] coefficients@[k])@ == self.coefficients@[k]@,
            decreases self.coefficients@.len() - i,
        {
            let copy = self.coefficients[i].try_clone()?;
            coefficients.push(copy);
            i = i + 1;
        }
        proof {
            assert(algebraic_views(coefficients@) =~= algebraic_views(self.coefficients@));
        }
        Ok(Self { coefficients })
    }
}

impl RationalPolynomial {
    /// Each coefficient as a real algebraic number, lowest degree first.
    pub fn to_real_algebraic_coefficients(&self) -> (r: Result<RationalCoefficientConversion, AlgnumError>)
        ensures
            match r {
                Ok(c) => c@.len() == self@.len() && forall|i: int|
                    0 <= i < self@.len() ==> first_root_of(linear_for(self@[i]), #[trigger] c@[i]),
                Err(e) => exists|i: int|
                    0 <= i < self@.len() && (first_root_failure(linear_for(#[trigger] self@[i]), e)
                        || resource_failure(e)),
            },
    {
        let values = self.coefficients();
        let mut coefficients: Vec<RealAlgebraic> = Vec::new();
        let mut i: usize = 0;
        while i < values.len()
            invariant
                i <= values@.len(),
                crate::polynomial::rat_values(values@) == self@,
                coefficients@.len() == i,
                forall|k: int|
                    0 <= k < i ==> first_root_of(linear_for(self@[k]), (#[trigger] coefficients@[k])@),
            decreases values@.len() - i,
        {
            let value = match RealAlgebraic::from_reduced_rational(&values[i]) {
                Ok(v) => v,
                Err(error) => {
                    proof {
                        assert(self@[i as int] == values@[i as int]@);
                    }
                    return Err(error);
                },
            };
            proof {
                assert(self@[i as int] == values@[i as int]@);
            }
            coefficients.push(value);
            i = i + 1;
        }
        let conversion = RationalCoefficientConversion { coefficients };
        proof {
            assert forall|k: int| 0 <= k < self@.len() implies first_root_of(
                linear_for(self@[k]),
                #[trigger] conversion@[k],
            ) by {
                assert(conversion@[k] == conversion.coefficients@[k]@);
            }
        }
        Ok(conversion)
    }
}

/// Whether two closed intervals meet; a shared endpoint counts.
pub fn enclosures_intersect(left: &DyadicEnclosure, right: &DyadicEnclosure) -> (r: bool)
    ensures
        r == (dyadic_le(left@.0, right@.1) && dyadic_le(right@.0, left@.1)),
{
    !is_greater(left.lower(), right.upper()) && !is_greater(right.lower(), left.upper())
}

/// The precision at which the enclosure of a result is asked for in round `bits` of a
/// candidate selection: the round's own.
pub fn result_selection_precision(bits: u32) -> (r: u32)
    ensures
        r == bits,
{
    bits
}

/// The precisions at which both operands are enclosed in round `bits` of a candidate
/// selection: the round's own for each.
pub fn binary_selection_precisions(bits: u32) -> (r: (u32, u32))
    ensures
        r == (bits, bits),
{
    (bits, bits)
}

/// How many candidate roots a selection visits: all of them.
pub fn candidate_root_visit_limit(root_count: usize) -> (r: usize)
    ensures
        r == root_count,
{
    root_count
}

/// The opposite sign.
pub fn opposite_sign(sign: Sign) -> (r: Sign)
    ensures
        sign == Sign::Negative ==> r == Sign::Positive,
        sign == Sign::Zero ==> r == Sign::Zero,
        sign == Sign::Positive ==> r == Sign::Negative,
{
    match sign {
        Sign::Negative => Sign::Positive,
        Sign::Zero => Sign::Zero,
        Sign::Positive => Sign::Negative,
    }
}

/// The dyadic `d` is a root of `p`.
pub open spec fn dyadic_root(p: Seq<int>, d: (int, nat)) -> bool {
    poly_eval_rat(p, dyadic_value(d)).0 == 0
}

/// Factor `k` of `factors` certifies a root in `(lower, upper)` with the result `c`.
pub open spec fn factor_certifies(
    factors: Seq<Seq<int>>,
    k: int,
    lower: (int, nat),
    upper: (int, nat),
    c: ((Seq<int>, usize), ((int, nat), (int, nat))),
) -> bool {
    &&& 0 <= k < factors.len()
    &&& factors[k].len() > 1
    &&& c.0.0 == factors[k]
    &&& isolates_one(sturm_sequence_of(factors[k]), (lower, upper))
    &&& certified_root(sturm_sequence_of(factors[k]), lower, upper, c.0.1, c.1)
}

/// Factor `k` finds no root in `(lower, upper)`.
pub open spec fn factor_misses(factors: Seq<Seq<int>>, k: int, lower: (int, nat), upper: (int, nat)) -> bool {
    factors[k].len() > 1 && no_target(sturm_sequence_of(factors[k]), lower, upper)
}

/// Exactly one factor of a canonical factorization of `p` certifies a root in
/// `(lower, upper)`, with the result `c`, and every other factor finds none.
pub open spec fn certified_by_one_factor(
    p: Seq<int>,
    lower: (int, nat),
    upper: (int, nat),
    c: ((Seq<int>, usize), ((int, nat), (int, nat))),
) -> bool {
    exists|factors: Seq<Seq<int>>, k: int|
        #[trigger] canonical_factorization(p, factors) && #[trigger] factor_certifies(
            factors,
            k,
            lower,
            upper,
            c,
        ) && forall|j: int|
            0 <= j < factors.len() && j != k ==> factor_misses(factors, j, lower, upper)
}

/// The Sturm root count of factor `k` on `(lower, upper)`.
pub open spec fn factor_count(factors: Seq<Seq<int>>, k: int, lower: (int, nat), upper: (int, nat)) -> int {
    variations(sturm_sequence_of(factors[k]), lower) - variations(sturm_sequence_of(factors[k]), upper)
}

/// Isolation by the Sturm sequence `s` meets none of its anomalies: the variations do
/// not increase on the interval of the root bound, every interval with several roots
/// splits within the `u32` exponents, and some isolated interval meets `(lower, upper)`.
pub open spec fn clean_isolation(s: Seq<Seq<int>>, lower: (int, nat), upper: (int, nat)) -> bool {
    &&& !increases_on_bound_interval(s)
    &&& !split_may_overflow(s)
    &&& !misses_isolated_roots(s, lower, upper)
}

/// Factor `k` has positive degree and a root count on `(lower, upper)`, and isolates
/// cleanly when that count is one.
pub open spec fn factor_decides(factors: Seq<Seq<int>>, k: int, lower: (int, nat), upper: (int, nat)) -> bool {
    &&& factors[k].len() > 1
    &&& counts_roots(sturm_sequence_of(factors[k]), lower, upper)
    &&& factor_count(factors, k, lower, upper) == 1 ==> clean_isolation(
        sturm_sequence_of(factors[k]),
        lower,
        upper,
    )
}

/// Every factor decides `(lower, upper)`.
pub open spec fn factors_decide(factors: Seq<Seq<int>>, lower: (int, nat), upper: (int, nat)) -> bool {
    forall|k: int| 0 <= k < factors.len() ==> #[trigger] factor_decides(factors, k, lower, upper)
}

/// How many of the first `n` factors count exactly one root on `(lower, upper)`.
pub open spec fn ones_before(factors: Seq<Seq<int>>, lower: (int, nat), upper: (int, nat), n: int) -> int
    decreases n,
{
    if n <= 0 {
        0
    } else {
        ones_before(factors, lower, upper, n - 1) + if factor_count(factors, n - 1, lower, upper) == 1 {
            1int
        } else {
            0int
        }
    }
}

/// Some one of the first `n` factors counts two or more roots on `(lower, upper)`.
pub open spec fn many_before(factors: Seq<Seq<int>>, lower: (int, nat), upper: (int, nat), n: int) -> bool {
    exists|k: int| 0 <= k < n && #[trigger] factor_count(factors, k, lower, upper) >= 2
}

/// The count of factors with one root only grows along the factors.
proof fn lemma_ones_grow(factors: Seq<Seq<int>>, lower: (int, nat), upper: (int, nat), a: int, b: int)
    requires
        0 <= a <= b,
    ensures
        ones_before(factors, lower, upper, a) <= ones_before(factors, lower, upper, b),
    decreases b,
{
    if a < b {
        lemma_ones_grow(factors, lower, upper, a, b - 1);
    }
}

/// The ends are ordered non-roots of `p`, and every canonical factorization of `p`
/// decides `(lower, upper)` with `ones` factors of one root and, when `many`, one of
/// several roots.
pub open spec fn certification_posed(
    p: Seq<int>,
    lower: (int, nat),
    upper: (int, nat),
    ones: int,
    many: bool,
) -> bool {
    &&& dyadic_lt(lower, upper)
    &&& !dyadic_root(p, lower)
    &&& !dyadic_root(p, upper)
    &&& forall|fs: Seq<Seq<int>>|
        #[trigger] canonical_factorization(p, fs) ==> factors_decide(fs, lower, upper) && ones_before(
            fs,
            lower,
            upper,
            fs.len() as int,
        ) == ones && many_before(fs, lower, upper, fs.len() as int) == many
}

/// A failure of certification for want of resources or in the factorization.
pub open spec fn certification_resource(e: AlgnumError) -> bool {
    resource_failure(e) || factorization_failure(e)
}

/// The certification returned a root, or failed for want of resources or in the
/// factorization.
pub open spec fn certified_or_resource(r: Result<CertifiedAlgebraic, AlgnumError>) -> bool {
    match r {
        Ok(_) => true,
        Err(e) => certification_resource(e),
    }
}

/// The certification refused with `expected`, or failed for want of resources or in
/// the factorization.
pub open spec fn certification_refused(r: Result<CertifiedAlgebraic, AlgnumError>, expected: AlgnumError) -> bool {
    match r {
        Ok(_) => false,
        Err(e) => e == expected || certification_resource(e),
    }
}

impl SquareFreePolynomial {
    /// The root in `(lower, upper)`, whose ends must be ordered non-roots: certified by
    /// each irreducible factor in turn, which must find it in exactly one of them. When
    /// every factor has a Sturm root count on the interval (and isolates cleanly where
    /// it counts one), no root gives `NoTargetRoot`, one root gives the root, and several
    /// give `MultipleTargetRoots`.
    pub fn certify_root(&self, lower: Dyadic, upper: Dyadic) -> (r: Result<CertifiedAlgebraic, AlgnumError>)
        ensures
            !dyadic_lt(lower@, upper@) ==> r == Err::<CertifiedAlgebraic, AlgnumError>(
                AlgnumError::InvalidIsolation,
            ),
            dyadic_lt(lower@, upper@) && (dyadic_root(self@, lower@) || dyadic_root(self@, upper@))
                ==> refused_as(r, AlgnumError::InvalidIsolation),
            match r {
                Ok(c) => dyadic_lt(lower@, upper@) && !dyadic_root(self@, lower@) && !dyadic_root(
                    self@,
                    upper@,
                ) && certified_by_one_factor(self@, lower@, upper@, c@),
                Err(e) => resource_failure(e) || factorization_failure(e) || split_failure(e)
                    || e is ZeroPolynomial || e is MultipleTargetRoots,
            },
            r == Err::<CertifiedAlgebraic, AlgnumError>(AlgnumError::NoTargetRoot) ==> exists|
                factors: Seq<Seq<int>>,
            |
                #[trigger] canonical_factorization(self@, factors) && forall|j: int|
                    0 <= j < factors.len() ==> factor_misses(factors, j, lower@, upper@),
            certification_posed(self@, lower@, upper@, 0, false) ==> certification_refused(
                r,
                AlgnumError::NoTargetRoot,
            ),
            certification_posed(self@, lower@, upper@, 1, false) ==> certified_or_resource(r),
            forall|ones: int, many: bool|
                #[trigger] certification_posed(self@, lower@, upper@, ones, many) && (ones >= 2 || many)
                    ==> certification_refused(r, AlgnumError::MultipleTargetRoots),
    {
        if !is_greater(&upper, &lower) {
            return Err(AlgnumError::InvalidIsolation);
        }
        let lower_value = dyadic_rational(&lower)?;
        let upper_value = dyadic_rational(&upper)?;
        if self.polynomial().evaluate_rational(&lower_value)?.is_zero() {
            return Err(AlgnumError::InvalidIsolation);
        }
        if self.polynomial().evaluate_rational(&upper_value)?.is_zero() {
            return Err(AlgnumError::InvalidIsolation);
        }
        let factors = self.factor()?;
        let ghost fs = factor_views(factors@);
        let ghost decided = factors_decide(fs, lower@, upper@);
        let mut selected: Option<CertifiedAlgebraic> = None;
        let ghost mut chosen: int = 0;
        let mut i: usize = 0;
        while i < factors.len()
            invariant
                i <= factors@.len(),
                fs == factor_views(factors@),
                canonical_factorization(self@, fs),
                dyadic_lt(lower@, upper@),
                !dyadic_root(self@, lower@),
                !dyadic_root(self@, upper@),
                selected is None ==> forall|j: int| 0 <= j < i ==> factor_misses(fs, j, lower@, upper@),
                selected matches Some(c) ==> 0 <= chosen < i && factor_certifies(
                    fs,
                    chosen,
                    lower@,
                    upper@,
                    c@,
                ) && forall|j: int|
                    0 <= j < i && j != chosen ==> factor_misses(fs, j, lower@, upper@),
                decided == factors_decide(fs, lower@, upper@),
                decided ==> !many_before(fs, lower@, upper@, i as int),
                decided ==> ones_before(fs, lower@, upper@, i as int) <= 1,
                decided ==> (selected is Some <==> ones_before(fs, lower@, upper@, i as int) == 1),
            decreases factors@.len() - i,
        {
            let lower_copy = match lower.try_clone() {
                Ok(v) => v,
                Err(error) => return Err(AlgnumError::Bigint(error)),
            };
            let upper_copy = match upper.try_clone() {
                Ok(v) => v,
                Err(error) => return Err(AlgnumError::Bigint(error)),
            };
            proof {
                assert(fs[i as int] == factors@[i as int]@);
                if decided {
                    assert(factor_decides(fs, i as int, lower@, upper@));
                }
            }
            let outcome = factors[i].certify_root(lower_copy, upper_copy);
            proof {
                if decided {
                    let c = factor_count(fs, i as int, lower@, upper@);
                    if outcome is Ok {
                        assert(c == 1);
                    }
                    if outcome == Err::<CertifiedAlgebraic, AlgnumError>(AlgnumError::NoTargetRoot) {
                        assert(c == 0);
                    }
                    if c >= 2 {
                        assert(many_before(fs, lower@, upper@, fs.len() as int));
                    }
                    assert(ones_before(fs, lower@, upper@, i + 1) == ones_before(fs, lower@, upper@, i as int) + if c == 1 {
                        1int
                    } else {
                        0int
                    });
                    lemma_ones_grow(fs, lower@, upper@, i + 1, fs.len() as int);
                    lemma_ones_grow(fs, lower@, upper@, 0, i as int);
                }
            }
            match outcome {
                Ok(root) => {
                    if selected.is_some() {
                        return Err(AlgnumError::MultipleTargetRoots);
                    }
                    proof {
                        chosen = i as int;
                    }
                    selected = Some(root);
                },
                Err(AlgnumError::NoTargetRoot) => {},
                Err(error) => return Err(error),
            }
            i = i + 1;
        }
        match selected {
            Some(root) => {
                proof {
                    assert(canonical_factorization(self@, fs) && factor_certifies(
                        fs,
                        chosen,
                        lower@,
                        upper@,
                        root@,
                    ));
                    assert(i == factors@.len());
                    assert(certified_by_one_factor(self@, lower@, upper@, root@));
                }
                Ok(root)
            },
            None => Err(AlgnumError::NoTargetRoot),
        }
    }
}

} // verus!
