//! Polynomials with integer coefficients, lowest degree first, without zero high
//! coefficients.
use crate::algnum_error::{reserve_elements, AlgnumError, AllocationResource};
use crate::error::BigintError;
use crate::integer::BigInt;
use crate::algnum_error::RepresentationResource;
use crate::natural::{divides, gcd_spec, lemma_divides_mod, lemma_gcd_divides, lemma_gcd_positive, times, BigUint};
use crate::rational::{is_reduced, lemma_reduced_form, reduced_form, RawRational, ReducedRational};
use crate::integer::{sign_of, Sign};
use crate::integer::abs;
use vstd::prelude::*;

verus! {

/// The values of integer coefficients.
pub open spec fn int_values(s: Seq<BigInt>) -> Seq<int> {
    Seq::new(s.len(), |i: int| s[i]@)
}

/// `s` without its high zero coefficients.
pub open spec fn trim_int(s: Seq<int>) -> Seq<int>
    decreases s.len(),
{
    if s.len() > 0 && s[s.len() - 1] == 0 {
        trim_int(s.drop_last())
    } else {
        s
    }
}

/// The coefficient of degree `i`, zero past the end.
pub open spec fn coef(s: Seq<int>, i: int) -> int {
    if 0 <= i < s.len() {
        s[i]
    } else {
        0
    }
}

/// No zero high coefficient.
pub open spec fn is_trimmed(s: Seq<int>) -> bool {
    s.len() > 0 ==> s[s.len() - 1] != 0
}

/// The larger of two lengths.
pub open spec fn max_nat(a: nat, b: nat) -> nat {
    if a >= b {
        a
    } else {
        b
    }
}

/// The sum, or the difference when `subtract`, of two coefficient sequences.
pub open spec fn poly_add_sub(a: Seq<int>, b: Seq<int>, subtract: bool) -> Seq<int> {
    trim_int(Seq::new(max_nat(a.len(), b.len()), |i: int| sum_at(a, b, subtract, i)))
}

/// The first `m` terms of coefficient `k` of the product of `a` and `b`.
pub open spec fn conv(a: Seq<int>, b: Seq<int>, k: int, m: nat) -> int
    decreases m,
{
    if m == 0 {
        0
    } else {
        conv(a, b, k, (m - 1) as nat) + coef(a, m - 1) * coef(b, k - (m - 1))
    }
}

/// The product of two coefficient sequences.
pub open spec fn poly_mul(a: Seq<int>, b: Seq<int>) -> Seq<int> {
    if a.len() == 0 || b.len() == 0 {
        Seq::empty()
    } else {
        trim_int(Seq::new((a.len() + b.len() - 1) as nat, |k: int| conv(a, b, k, a.len())))
    }
}

/// The derivative of a coefficient sequence.
pub open spec fn poly_derivative(a: Seq<int>) -> Seq<int> {
    if a.len() <= 1 {
        Seq::empty()
    } else {
        trim_int(Seq::new((a.len() - 1) as nat, |i: int| (i + 1) * a[i + 1]))
    }
}

/// The value at `x`, by Horner's rule.
pub open spec fn poly_eval(a: Seq<int>, x: int) -> int
    decreases a.len(),
{
    if a.len() == 0 {
        0
    } else {
        a[0] + x * poly_eval(a.drop_first(), x)
    }
}

/// The value at the rational `x` by Horner's rule, each step reduced to lowest terms.
pub open spec fn poly_eval_rat(a: Seq<int>, x: (int, nat)) -> (int, nat)
    decreases a.len(),
{
    if a.len() == 0 {
        rat_zero()
    } else {
        rat_add(rat_mul(poly_eval_rat(a.drop_first(), x), x), (a[0], 1nat))
    }
}

/// The constant polynomial `c`.
pub open spec fn constant_poly(c: int) -> Seq<int> {
    if c == 0 {
        Seq::empty()
    } else {
        seq![c]
    }
}

/// `a(t)`, by Horner's rule on polynomials.
pub open spec fn poly_compose(a: Seq<int>, t: Seq<int>) -> Seq<int>
    decreases a.len(),
{
    if a.len() == 0 {
        Seq::empty()
    } else {
        poly_add_sub(poly_mul(poly_compose(a.drop_first(), t), t), constant_poly(a[0]), false)
    }
}

/// Trimming leaves a trimmed prefix.
pub proof fn lemma_trim_int(s: Seq<int>)
    ensures
        is_trimmed(trim_int(s)),
        trim_int(s).len() <= s.len(),
        forall|i: int| 0 <= i < trim_int(s).len() ==> trim_int(s)[i] == s[i],
        forall|i: int| trim_int(s).len() <= i < s.len() ==> s[i] == 0,
    decreases s.len(),
{
    if s.len() > 0 && s[s.len() - 1] == 0 {
        let t = s.drop_last();
        lemma_trim_int(t);
        assert(trim_int(s) == trim_int(t));
        assert forall|i: int| 0 <= i < trim_int(s).len() implies trim_int(s)[i] == s[i] by {
            assert(trim_int(t)[i] == t[i]);
        }
        assert forall|i: int| trim_int(s).len() <= i < s.len() implies s[i] == 0 by {
            if i < t.len() {
                assert(t[i] == 0);
            }
        }
    }
}

/// A trimmed sequence is its own trimming.
pub proof fn lemma_trim_trimmed(s: Seq<int>)
    requires
        is_trimmed(s),
    ensures
        trim_int(s) == s,
{
}

/// An integer polynomial, lowest degree first, with a nonzero leading coefficient.
#[derive(Debug, Eq, PartialEq)]
pub struct Polynomial {
    coefficients: Vec<BigInt>,
}

impl View for Polynomial {
    type V = Seq<int>;

    closed spec fn view(&self) -> Seq<int> {
        int_values(self.coefficients@)
    }
}

/// A failure of an operation on integer polynomials: an integer failure, or a
/// coefficient buffer that could not be allocated.
pub open spec fn integer_failure(e: AlgnumError) -> bool {
    ||| e matches AlgnumError::Bigint(b) && (b is AllocationFailure || b is CapacityOverflow)
    ||| e is AllocationFailure
}

impl Polynomial {
    /// No zero leading coefficient: holds of every value of this type.
    #[verifier::type_invariant]
    pub open spec fn well_formed(self) -> bool {
        is_trimmed(self@)
    }

    /// The polynomial with these coefficients, lowest degree first; high zeros are dropped.
    pub fn from_coefficients(coefficients: Vec<BigInt>) -> (r: Self)
        ensures
            r@ == trim_int(int_values(coefficients@)),
    {
        let mut coefficients = coefficients;
        let ghost original = int_values(coefficients@);
        proof {
            lemma_trim_int(original);
        }
        while coefficients.len() > 0 && coefficients[coefficients.len() - 1].is_zero()
            invariant
                trim_int(original) == trim_int(int_values(coefficients@)),
            decreases coefficients@.len(),
        {
            let ghost before = int_values(coefficients@);
            coefficients.pop();
            proof {
                assert(int_values(coefficients@) =~= before.drop_last());
            }
        }
        proof {
            assert(is_trimmed(int_values(coefficients@)));
        }
        Polynomial { coefficients }
    }

    /// The zero polynomial.
    pub fn zero() -> (r: Self)
        ensures
            r@ == Seq::<int>::empty(),
    {
        Polynomial { coefficients: Vec::new() }
    }

    /// The constant one.
    pub fn one() -> (r: Result<Self, AlgnumError>)
        ensures
            match r {
                Ok(v) => v@ == seq![1int],
                Err(e) => integer_failure(e),
            },
    {
        let mut coefficients: Vec<BigInt> = Vec::new();
        reserve_elements(&mut coefficients, 1, AllocationResource::PolynomialCoefficients)?;
        let one = match BigInt::one() {
            Ok(value) => value,
            Err(error) => return Err(AlgnumError::Bigint(error)),
        };
        coefficients.push(one);
        proof {
            assert(int_values(coefficients@) =~= seq![1int]);
        }
        Ok(Polynomial { coefficients })
    }

    /// The coefficients, lowest degree first.
    pub fn coefficients(&self) -> (r: &[BigInt])
        ensures
            int_values(r@) == self@,
    {
        self.coefficients.as_slice()
    }

    /// The degree; none for the zero polynomial.
    pub fn degree(&self) -> (r: Option<usize>)
        ensures
            self@.len() == 0 ==> r is None,
            self@.len() > 0 ==> r == Some((self@.len() - 1) as usize),
            self@.len() > 0 ==> (r matches Some(d) && d == self@.len() - 1),
    {
        if self.coefficients.len() == 0 {
            None
        } else {
            Some(self.coefficients.len() - 1)
        }
    }

    /// Whether this is the zero polynomial.
    pub fn is_zero(&self) -> (r: bool)
        ensures
            r == (self@.len() == 0),
    {
        self.coefficients.len() == 0
    }

    /// An independent copy.
    pub fn try_clone(&self) -> (r: Result<Self, AlgnumError>)
        ensures
            match r {
                Ok(v) => v@ == self@,
                Err(e) => integer_failure(e),
            },
    {
        proof {
            use_type_invariant(self);
        }
        let mut coefficients: Vec<BigInt> = Vec::new();
        reserve_elements(
            &mut coefficients,
            self.coefficients.len(),
            AllocationResource::PolynomialCoefficients,
        )?;
        let mut index: usize = 0;
        while index < self.coefficients.len()
            invariant
                index <= self.coefficients@.len(),
                coefficients@.len() == index,
                int_values(coefficients@) == self@.subrange(0, index as int),
                is_trimmed(self@),
            decreases self.coefficients@.len() - index,
        {
            let source = &self.coefficients[index];
            proof {
                use_type_invariant(source);
                source.lemma_magnitude();
            }
            let copy = match source.try_clone() {
                Ok(value) => value,
                Err(error) => return Err(AlgnumError::Bigint(error)),
            };
            let ghost before = coefficients@;
            assert(copy@ == self@[index as int]);
            coefficients.push(copy);
            index = index + 1;
            proof {
                assert(coefficients@ == before.push(copy));
                assert forall|i: int| 0 <= i < index implies #[trigger] int_values(coefficients@)[i]
                    == self@.subrange(0, index as int)[i] by {
                    assert(int_values(coefficients@)[i] == coefficients@[i]@);
                    if i < index - 1 {
                        assert(coefficients@[i] == before[i]);
                        assert(int_values(before)[i] == before[i]@);
                        assert(int_values(before)[i] == self@.subrange(0, index - 1)[i]);
                    }
                }
                assert(int_values(coefficients@) =~= self@.subrange(0, index as int));
            }
        }
        proof {
            assert(self@.subrange(0, self@.len() as int) =~= self@);
        }
        Ok(Polynomial { coefficients })
    }

    /// The polynomial as a candidate for root isolation; a constant is refused.
    pub fn candidate(self) -> (r: Result<CandidatePolynomial, AlgnumError>)
        ensures
            self@.len() <= 1 ==> r == Err::<CandidatePolynomial, AlgnumError>(
                AlgnumError::ZeroPolynomial,
            ),
            self@.len() > 1 ==> (r matches Ok(c) && c@ == self@),
    {
        if self.coefficients.len() <= 1 {
            return Err(AlgnumError::ZeroPolynomial);
        }
        Ok(CandidatePolynomial { polynomial: self })
    }
}

/// A polynomial of positive degree, a candidate for root isolation.
#[derive(Debug, Eq, PartialEq)]
pub struct CandidatePolynomial {
    polynomial: Polynomial,
}

impl View for CandidatePolynomial {
    type V = Seq<int>;

    closed spec fn view(&self) -> Seq<int> {
        self.polynomial@
    }
}

impl CandidatePolynomial {
    /// A positive degree: holds of every value of this type.
    #[verifier::type_invariant]
    pub open spec fn well_formed(self) -> bool {
        self@.len() > 1
    }

    /// The polynomial.
    pub fn polynomial(&self) -> (r: &Polynomial)
        ensures
            r@ == self@,
    {
        &self.polynomial
    }

    /// An independent copy.
    pub fn try_clone(&self) -> (r: Result<Self, AlgnumError>)
        ensures
            match r {
                Ok(v) => v@ == self@,
                Err(e) => integer_failure(e),
            },
    {
        proof {
            use_type_invariant(self);
        }
        let polynomial = self.polynomial.try_clone()?;
        Ok(CandidatePolynomial { polynomial })
    }
}

/// A polynomial without repeated factors, primitive and with a positive leading coefficient.
#[derive(Debug, Eq, PartialEq)]
pub struct SquareFreePolynomial {
    polynomial: Polynomial,
}

impl View for SquareFreePolynomial {
    type V = Seq<int>;

    closed spec fn view(&self) -> Seq<int> {
        self.polynomial@
    }
}

impl SquareFreePolynomial {
    /// The polynomial.
    pub fn polynomial(&self) -> (r: &Polynomial)
        ensures
            r@ == self@,
    {
        &self.polynomial
    }

    /// An independent copy.
    pub fn try_clone(&self) -> (r: Result<Self, AlgnumError>)
        ensures
            match r {
                Ok(v) => v@ == self@,
                Err(e) => integer_failure(e),
            },
    {
        let polynomial = self.polynomial.try_clone()?;
        Ok(SquareFreePolynomial { polynomial })
    }

    /// The polynomial, taken as square-free.
    pub fn from_polynomial(polynomial: Polynomial) -> (r: Self)
        ensures
            r@ == polynomial@,
    {
        SquareFreePolynomial { polynomial }
    }
}

/// The sum, or difference, of coefficients `index` of `a` and `b`.
pub open spec fn sum_at(a: Seq<int>, b: Seq<int>, subtract: bool, index: int) -> int {
    if subtract {
        coef(a, index) - coef(b, index)
    } else {
        coef(a, index) + coef(b, index)
    }
}

/// Terms of the convolution sum whose right coefficient is zero add nothing.
pub proof fn lemma_conv_extra_terms(a: Seq<int>, b: Seq<int>, k: int, m1: nat, m2: nat)
    requires
        m1 <= m2,
        forall|i: int| m1 <= i < m2 ==> #[trigger] coef(b, k - i) == 0,
    ensures
        conv(a, b, k, m2) == conv(a, b, k, m1),
    decreases m2,
{
    if m2 > m1 {
        lemma_conv_extra_terms(a, b, k, m1, (m2 - 1) as nat);
        assert(coef(b, k - (m2 - 1)) == 0);
    }
}

/// The coefficients of a trimmed sequence are those of the sequence.
pub proof fn lemma_coef_trim(s: Seq<int>, k: int)
    ensures
        coef(trim_int(s), k) == coef(s, k),
{
    lemma_trim_int(s);
}

/// Coefficient `k` of a product is the convolution sum over the left coefficients.
pub proof fn lemma_coef_poly_mul(a: Seq<int>, b: Seq<int>, k: int)
    requires
        k >= 0,
    ensures
        coef(poly_mul(a, b), k) == conv(a, b, k, a.len()),
{
    if a.len() == 0 {
    } else if b.len() == 0 {
        lemma_conv_extra_terms(a, b, k, 0, a.len());
    } else {
        let len = (a.len() + b.len() - 1) as nat;
        let s = Seq::new(len, |j: int| conv(a, b, j, a.len()));
        lemma_coef_trim(s, k);
        if k >= len {
            assert forall|i: int| 0 <= i < a.len() implies #[trigger] coef(b, k - i) == 0 by {}
            lemma_conv_extra_terms(a, b, k, 0, a.len());
        }
    }
}

/// A sequence whose entries from `r` on are zero, with a nonzero entry `r - 1`,
/// trims to its first `r` entries.
pub proof fn lemma_trim_exact(s: Seq<int>, r: nat)
    requires
        r <= s.len(),
        forall|i: int| r <= i < s.len() ==> s[i] == 0,
        r == 0 || s[r - 1] != 0,
    ensures
        trim_int(s) == s.subrange(0, r as int),
    decreases s.len(),
{
    if s.len() > r {
        let t = s.drop_last();
        lemma_trim_exact(t, r);
        assert(t.subrange(0, r as int) =~= s.subrange(0, r as int));
    } else {
        assert(s.subrange(0, r as int) =~= s);
    }
}

/// The failure of a coefficient computation of the integer layer.
fn integer_failure_of(error: BigintError) -> (r: AlgnumError)
    ensures
        r == AlgnumError::Bigint(error),
{
    AlgnumError::Bigint(error)
}

/// The sum, or difference, of coefficients `index` of `left` and `right`.
fn integer_sum_at(left: &Polynomial, right: &Polynomial, subtract: bool, index: usize) -> (r: Result<
    BigInt,
    AlgnumError,
>)
    ensures
        match r {
            Ok(v) => v@ == sum_at(left@, right@, subtract, index as int),
            Err(e) => integer_failure(e),
        },
{
    let left_len = left.coefficients.len();
    let right_len = right.coefficients.len();
    let result = if index < left_len && index < right_len {
        let a = &left.coefficients[index];
        let b = &right.coefficients[index];
        proof {
            use_type_invariant(a);
            use_type_invariant(b);
            a.lemma_magnitude();
            b.lemma_magnitude();
        }
        if subtract {
            a.sub(b)
        } else {
            a.add(b)
        }
    } else if index < left_len {
        let a = &left.coefficients[index];
        proof {
            use_type_invariant(a);
            a.lemma_magnitude();
        }
        a.try_clone()
    } else if index < right_len {
        let b = &right.coefficients[index];
        proof {
            use_type_invariant(b);
            b.lemma_magnitude();
        }
        if subtract {
            b.negated()
        } else {
            b.try_clone()
        }
    } else {
        Ok(BigInt::zero())
    };
    match result {
        Ok(value) => Ok(value),
        Err(error) => Err(integer_failure_of(error)),
    }
}

/// The length of the trimmed sum: one past its highest nonzero coefficient.
fn integer_sum_result_len(left: &Polynomial, right: &Polynomial, subtract: bool, upper: usize) -> (r:
    Result<usize, AlgnumError>)
    ensures
        match r {
            Ok(n) => n <= upper && (forall|i: int| n <= i < upper ==> sum_at(
                left@,
                right@,
                subtract,
                i,
            ) == 0) && (n == 0 || sum_at(left@, right@, subtract, n - 1) != 0),
            Err(e) => integer_failure(e),
        },
{
    let mut index = upper;
    while index > 0
        invariant
            index <= upper,
            forall|i: int| index <= i < upper ==> sum_at(left@, right@, subtract, i) == 0,
        decreases index,
    {
        let value = integer_sum_at(left, right, subtract, index - 1)?;
        if !value.is_zero() {
            return Ok(index);
        }
        index = index - 1;
    }
    Ok(0)
}

impl Polynomial {
    fn add_or_sub(&self, rhs: &Self, subtract: bool) -> (r: Result<Self, AlgnumError>)
        ensures
            match r {
                Ok(v) => v@ == poly_add_sub(self@, rhs@, subtract),
                Err(e) => integer_failure(e),
            },
    {
        let upper = if self.coefficients.len() >= rhs.coefficients.len() {
            self.coefficients.len()
        } else {
            rhs.coefficients.len()
        };
        let ghost full = Seq::new(upper as nat, |i: int| sum_at(self@, rhs@, subtract, i));
        let result_len = integer_sum_result_len(self, rhs, subtract, upper)?;
        proof {
            assert forall|i: int| result_len <= i < full.len() implies full[i] == 0 by {
                assert(full[i] == sum_at(self@, rhs@, subtract, i));
            }
            if result_len > 0 {
                assert(full[result_len - 1] == sum_at(self@, rhs@, subtract, result_len - 1));
            }
            lemma_trim_exact(full, result_len as nat);
            assert(poly_add_sub(self@, rhs@, subtract) == trim_int(full));
        }
        let mut coefficients: Vec<BigInt> = Vec::new();
        reserve_elements(&mut coefficients, result_len, AllocationResource::PolynomialCoefficients)?;
        let mut index: usize = 0;
        while index < result_len
            invariant
                index <= result_len,
                result_len <= upper,
                coefficients@.len() == index,
                full.len() == upper,
                full == Seq::new(upper as nat, |i: int| sum_at(self@, rhs@, subtract, i)),
                forall|i: int| 0 <= i < index ==> #[trigger] coefficients@[i]@ == full[i],
            decreases result_len - index,
        {
            let value = integer_sum_at(self, rhs, subtract, index)?;
            let ghost before = coefficients@;
            proof {
                assert(full[index as int] == sum_at(self@, rhs@, subtract, index as int));
            }
            coefficients.push(value);
            proof {
                assert forall|i: int| 0 <= i < index + 1 implies #[trigger] coefficients@[i]@
                    == full[i] by {
                    if i < index {
                        assert(coefficients@[i] == before[i]);
                    }
                }
            }
            index = index + 1;
        }
        proof {
            assert(int_values(coefficients@) =~= full.subrange(0, result_len as int));
            crate::polynomial::lemma_trim_int(full);
        }
        Ok(Polynomial { coefficients })
    }

    /// The sum.
    pub fn add(&self, rhs: &Self) -> (r: Result<Self, AlgnumError>)
        ensures
            match r {
                Ok(v) => v@ == poly_add_sub(self@, rhs@, false),
                Err(e) => integer_failure(e),
            },
    {
        self.add_or_sub(rhs, false)
    }

    /// The difference.
    pub fn sub(&self, rhs: &Self) -> (r: Result<Self, AlgnumError>)
        ensures
            match r {
                Ok(v) => v@ == poly_add_sub(self@, rhs@, true),
                Err(e) => integer_failure(e),
            },
    {
        self.add_or_sub(rhs, true)
    }
}

/// The number of coefficients of a product of polynomials with these many
/// coefficients: the left degree plus the right count, unless it overflows.
fn checked_product_coefficient_count(left_len: usize, right_len: usize) -> (r: Result<
    usize,
    AlgnumError,
>)
    requires
        left_len > 0,
        right_len > 0,
    ensures
        left_len - 1 + right_len <= usize::MAX ==> r == Ok::<usize, AlgnumError>(
            (left_len - 1 + right_len) as usize,
        ),
        left_len - 1 + right_len > usize::MAX ==> match r {
            Ok(_) => false,
            Err(e) => integer_failure(e) || (e matches AlgnumError::RepresentationLimit {
                resource,
                required,
                maximum,
            } && resource == RepresentationResource::PolynomialDegree && required@ == left_len - 1
                + right_len - 1 && maximum@ == usize::MAX - 1),
        },
{
    let left_degree = left_len - 1;
    match left_degree.checked_add(right_len) {
        Some(count) => return Ok(count),
        None => {},
    }
    let left = match BigUint::try_from(left_degree) {
        Ok(value) => value,
        Err(error) => return Err(integer_failure_of(error)),
    };
    let right = match BigUint::try_from(right_len - 1) {
        Ok(value) => value,
        Err(error) => return Err(integer_failure_of(error)),
    };
    let required = match left.add(&right) {
        Ok(value) => value,
        Err(error) => return Err(integer_failure_of(error)),
    };
    let maximum = match BigUint::try_from(usize::MAX - 1) {
        Ok(value) => value,
        Err(error) => return Err(integer_failure_of(error)),
    };
    Err(AlgnumError::RepresentationLimit {
        resource: RepresentationResource::PolynomialDegree,
        required,
        maximum,
    })
}

/// Coefficient `k` after adding row `row` of the product up to column `column`.
pub open spec fn row_partial(a: Seq<int>, b: Seq<int>, k: int, row: nat, column: nat) -> int {
    conv(a, b, k, row) + if row <= k < row + column {
        coef(a, row as int) * coef(b, k - row)
    } else {
        0
    }
}

/// A product failure: of the integer layer, of allocation, or of a degree beyond `usize`.
pub open spec fn product_failure(e: AlgnumError) -> bool {
    integer_failure(e) || e is RepresentationLimit
}

impl Polynomial {
    /// The product.
    pub fn mul(&self, rhs: &Self) -> (r: Result<Self, AlgnumError>)
        ensures
            match r {
                Ok(v) => v@ == poly_mul(self@, rhs@),
                Err(e) => product_failure(e),
            },
            (r matches Err(AlgnumError::RepresentationLimit { .. })) ==> self@.len() + rhs@.len() - 1
                > usize::MAX,
    {
        self.mul_reserving(rhs, AllocationResource::PolynomialCoefficients)
    }

    /// The product, with its coefficient buffer reported as `resource` if it cannot be
    /// allocated.
    pub(crate) fn mul_reserving(&self, rhs: &Self, resource: AllocationResource) -> (r: Result<
        Self,
        AlgnumError,
    >)
        ensures
            match r {
                Ok(v) => v@ == poly_mul(self@, rhs@),
                Err(e) => product_failure(e),
            },
            (r matches Err(AlgnumError::RepresentationLimit { .. })) ==> self@.len() + rhs@.len() - 1
                > usize::MAX,
    {
        if self.is_zero() || rhs.is_zero() {
            return Ok(Self::zero());
        }
        let left_len = self.coefficients.len();
        let right_len = rhs.coefficients.len();
        let ghost a = self@;
        let ghost b = rhs@;
        let result_len = checked_product_coefficient_count(left_len, right_len)?;
        let mut coefficients: Vec<BigInt> = Vec::new();
        reserve_elements(&mut coefficients, result_len, resource)?;
        let mut fill: usize = 0;
        while fill < result_len
            invariant
                fill <= result_len,
                coefficients@.len() == fill,
                forall|k: int| 0 <= k < fill ==> #[trigger] coefficients@[k]@ == 0,
            decreases result_len - fill,
        {
            coefficients.push(BigInt::zero());
            fill = fill + 1;
        }
        let mut row: usize = 0;
        while row < left_len
            invariant
                a == self@,
                b == rhs@,
                left_len == a.len(),
                right_len == b.len(),
                left_len > 0,
                right_len > 0,
                result_len == left_len - 1 + right_len,
                row <= left_len,
                coefficients@.len() == result_len,
                forall|k: int| 0 <= k < result_len ==> #[trigger] coefficients@[k]@ == conv(
                    a,
                    b,
                    k,
                    row as nat,
                ),
            decreases left_len - row,
        {
            let mut column: usize = 0;
            while column < right_len
                invariant
                    a == self@,
                    b == rhs@,
                    left_len == a.len(),
                    right_len == b.len(),
                    result_len == left_len - 1 + right_len,
                    row < left_len,
                    column <= right_len,
                    coefficients@.len() == result_len,
                    forall|k: int| 0 <= k < result_len ==> #[trigger] coefficients@[k]@ == row_partial(
                        a,
                        b,
                        k,
                        row as nat,
                        column as nat,
                    ),
                decreases right_len - column,
            {
                let index = row + column;
                let product = match self.coefficients[row].mul(&rhs.coefficients[column]) {
                    Ok(value) => value,
                    Err(error) => return Err(integer_failure_of(error)),
                };
                let sum = match coefficients[index].add(&product) {
                    Ok(value) => value,
                    Err(error) => return Err(integer_failure_of(error)),
                };
                let ghost before = coefficients@;
                coefficients.set(index, sum);
                proof {
                    assert forall|k: int| 0 <= k < result_len implies #[trigger] coefficients@[k]@
                        == row_partial(a, b, k, row as nat, (column + 1) as nat) by {
                        if k != index {
                            assert(coefficients@[k] == before[k]);
                            assert(before[k]@ == row_partial(a, b, k, row as nat, column as nat));
                        } else {
                            assert(before[k]@ == row_partial(a, b, k, row as nat, column as nat));
                            assert(coef(a, row as int) == a[row as int]);
                            assert(coef(b, k - row) == b[column as int]);
                        }
                    }
                }
                column = column + 1;
            }
            proof {
                assert forall|k: int| 0 <= k < result_len implies #[trigger] coefficients@[k]@
                    == conv(a, b, k, (row + 1) as nat) by {
                    assert(coefficients@[k]@ == row_partial(a, b, k, row as nat, right_len as nat));
                    if !(row <= k < row + right_len) {
                        assert(coef(b, k - row) == 0);
                        assert(coef(a, row as int) * coef(b, k - row) == 0) by (nonlinear_arith)
                            requires
                                coef(b, k - row) == 0,
                        ;
                    }
                }
            }
            row = row + 1;
        }
        proof {
            assert(int_values(coefficients@) =~= Seq::new(
                (a.len() + b.len() - 1) as nat,
                |k: int| conv(a, b, k, a.len()),
            ));
        }
        Ok(Self::from_coefficients(coefficients))
    }
}

impl Polynomial {
    /// The derivative.
    pub fn derivative(&self) -> (r: Result<Self, AlgnumError>)
        ensures
            match r {
                Ok(v) => v@ == poly_derivative(self@),
                Err(e) => integer_failure(e),
            },
    {
        let len = self.coefficients.len();
        if len <= 1 {
            return Ok(Self::zero());
        }
        let degree = len - 1;
        let ghost a = self@;
        let mut coefficients: Vec<BigInt> = Vec::new();
        reserve_elements(&mut coefficients, degree, AllocationResource::PolynomialCoefficients)?;
        let mut index: usize = 1;
        while index < len
            invariant
                a == self@,
                len == a.len(),
                1 <= index <= len,
                coefficients@.len() == index - 1,
                forall|i: int| 0 <= i < index - 1 ==> #[trigger] coefficients@[i]@ == (i + 1) * a[i
                    + 1],
            decreases len - index,
        {
            let multiplier = match BigInt::try_from(index) {
                Ok(value) => value,
                Err(error) => return Err(integer_failure_of(error)),
            };
            let term = match self.coefficients[index].mul(&multiplier) {
                Ok(value) => value,
                Err(error) => return Err(integer_failure_of(error)),
            };
            let ghost before = coefficients@;
            proof {
                assert(term@ == a[index as int] * index);
                assert(a[index as int] * index == ((index - 1) + 1) * a[(index - 1) + 1])
                    by (nonlinear_arith);
            }
            coefficients.push(term);
            proof {
                assert forall|i: int| 0 <= i < index implies #[trigger] coefficients@[i]@ == (i + 1)
                    * a[i + 1] by {
                    if i < index - 1 {
                        assert(coefficients@[i] == before[i]);
                    }
                }
            }
            index = index + 1;
        }
        proof {
            assert(int_values(coefficients@) =~= Seq::new(
                (a.len() - 1) as nat,
                |i: int| (i + 1) * a[i + 1],
            ));
        }
        Ok(Self::from_coefficients(coefficients))
    }

    /// The value at `value`, by Horner's rule.
    pub fn evaluate_bigint(&self, value: &BigInt) -> (r: Result<BigInt, AlgnumError>)
        ensures
            match r {
                Ok(v) => v@ == poly_eval(self@, value@),
                Err(e) => integer_failure(e),
            },
    {
        let ghost a = self@;
        let mut result = BigInt::zero();
        let mut index = self.coefficients.len();
        proof {
            assert(a.subrange(index as int, a.len() as int) =~= Seq::<int>::empty());
        }
        while index > 0
            invariant
                a == self@,
                index <= a.len(),
                result@ == poly_eval(a.subrange(index as int, a.len() as int), value@),
            decreases index,
        {
            index = index - 1;
            let scaled = match result.mul(value) {
                Ok(v) => v,
                Err(error) => return Err(integer_failure_of(error)),
            };
            let next = match scaled.add(&self.coefficients[index]) {
                Ok(v) => v,
                Err(error) => return Err(integer_failure_of(error)),
            };
            proof {
                let tail = a.subrange(index as int, a.len() as int);
                assert(tail.drop_first() =~= a.subrange(index + 1, a.len() as int));
                assert(tail[0] == a[index as int]);
                assert(scaled@ == poly_eval(tail.drop_first(), value@) * value@);
                assert(poly_eval(tail.drop_first(), value@) * value@ == value@ * poly_eval(
                    tail.drop_first(),
                    value@,
                )) by (nonlinear_arith);
            }
            result = next;
        }
        proof {
            assert(a.subrange(0, a.len() as int) =~= a);
        }
        Ok(result)
    }

    /// The value at the rational `value`, by Horner's rule, in lowest terms.
    pub fn evaluate_rational(&self, value: &ReducedRational) -> (r: Result<
        ReducedRational,
        AlgnumError,
    >)
        ensures
            match r {
                Ok(v) => v@ == poly_eval_rat(self@, value@),
                Err(e) => integer_failure(e),
            },
    {
        let ghost a = self@;
        let mut result = match rational_zero() {
            Ok(v) => v,
            Err(error) => return Err(error),
        };
        let mut index = self.coefficients.len();
        proof {
            assert(a.subrange(index as int, a.len() as int) =~= Seq::<int>::empty());
        }
        while index > 0
            invariant
                a == self@,
                index <= a.len(),
                result@ == poly_eval_rat(a.subrange(index as int, a.len() as int), value@),
            decreases index,
        {
            index = index - 1;
            let scaled = match result.mul(value) {
                Ok(v) => v,
                Err(error) => return Err(integer_failure_of(error)),
            };
            let copy = match self.coefficients[index].try_clone() {
                Ok(v) => v,
                Err(error) => return Err(integer_failure_of(error)),
            };
            let term = match ReducedRational::from_bigint(copy) {
                Ok(v) => v,
                Err(error) => return Err(integer_failure_of(error)),
            };
            let next = match scaled.add(&term) {
                Ok(v) => v,
                Err(error) => return Err(integer_failure_of(error)),
            };
            proof {
                let tail = a.subrange(index as int, a.len() as int);
                assert(tail.drop_first() =~= a.subrange(index + 1, a.len() as int));
                assert(tail[0] == a[index as int]);
            }
            result = next;
        }
        proof {
            assert(a.subrange(0, a.len() as int) =~= a);
        }
        Ok(result)
    }

    /// The constant polynomial with this coefficient.
    fn from_single_coefficient(coefficient: BigInt) -> (r: Result<Self, AlgnumError>)
        ensures
            match r {
                Ok(v) => v@ == constant_poly(coefficient@),
                Err(e) => integer_failure(e),
            },
    {
        if coefficient.is_zero() {
            return Ok(Self::zero());
        }
        let mut coefficients: Vec<BigInt> = Vec::new();
        reserve_elements(&mut coefficients, 1, AllocationResource::PolynomialCoefficients)?;
        let ghost c = coefficient@;
        coefficients.push(coefficient);
        proof {
            assert(int_values(coefficients@) =~= seq![c]);
        }
        Ok(Polynomial { coefficients })
    }

    /// `self(inner)`, by Horner's rule on polynomials.
    pub fn compose(&self, inner: &Self) -> (r: Result<Self, AlgnumError>)
        ensures
            match r {
                Ok(v) => v@ == poly_compose(self@, inner@),
                Err(e) => product_failure(e),
            },
    {
        let ghost a = self@;
        let mut result = Self::zero();
        let mut index = self.coefficients.len();
        proof {
            assert(a.subrange(index as int, a.len() as int) =~= Seq::<int>::empty());
        }
        while index > 0
            invariant
                a == self@,
                index <= a.len(),
                result@ == poly_compose(a.subrange(index as int, a.len() as int), inner@),
            decreases index,
        {
            index = index - 1;
            let scaled = result.mul(inner)?;
            let source = &self.coefficients[index];
            proof {
                use_type_invariant(source);
                source.lemma_magnitude();
            }
            let copy = match source.try_clone() {
                Ok(v) => v,
                Err(error) => return Err(integer_failure_of(error)),
            };
            let constant = Self::from_single_coefficient(copy)?;
            let next = scaled.add(&constant)?;
            proof {
                let tail = a.subrange(index as int, a.len() as int);
                assert(tail.drop_first() =~= a.subrange(index + 1, a.len() as int));
                assert(tail[0] == a[index as int]);
            }
            result = next;
        }
        proof {
            assert(a.subrange(0, a.len() as int) =~= a);
        }
        Ok(result)
    }
}

/// The values of rational coefficients.
pub open spec fn rat_values(s: Seq<ReducedRational>) -> Seq<(int, nat)> {
    Seq::new(s.len(), |i: int| s[i]@)
}

/// `s` without its high zero coefficients.
pub open spec fn trim_rat(s: Seq<(int, nat)>) -> Seq<(int, nat)>
    decreases s.len(),
{
    if s.len() > 0 && s[s.len() - 1].0 == 0 {
        trim_rat(s.drop_last())
    } else {
        s
    }
}

/// No zero high coefficient.
pub open spec fn is_trimmed_rat(s: Seq<(int, nat)>) -> bool {
    s.len() > 0 ==> s[s.len() - 1].0 != 0
}

/// The rational zero `0 / 1`.
pub open spec fn rat_zero() -> (int, nat) {
    (0int, 1nat)
}

/// The reduced sum of two rationals, as `ReducedRational::add` computes it.
pub open spec fn rat_add(p: (int, nat), q: (int, nat)) -> (int, nat) {
    reduced_form(p.0 * q.1 + q.0 * p.1, p.1 * q.1)
}

/// The reduced difference of two rationals.
pub open spec fn rat_sub(p: (int, nat), q: (int, nat)) -> (int, nat) {
    reduced_form(p.0 * q.1 - q.0 * p.1, p.1 * q.1)
}

/// The reduced product of two rationals.
pub open spec fn rat_mul(p: (int, nat), q: (int, nat)) -> (int, nat) {
    reduced_form(p.0 * q.0, p.1 * q.1)
}

/// Coefficient `i` of the sum, or difference, of two rational coefficient sequences.
pub open spec fn rat_sum_at(a: Seq<(int, nat)>, b: Seq<(int, nat)>, subtract: bool, i: int) -> (
    int,
    nat,
) {
    if 0 <= i < a.len() && 0 <= i < b.len() {
        if subtract {
            rat_sub(a[i], b[i])
        } else {
            rat_add(a[i], b[i])
        }
    } else if 0 <= i < a.len() {
        a[i]
    } else if 0 <= i < b.len() {
        if subtract {
            reduced_form(-b[i].0, b[i].1)
        } else {
            b[i]
        }
    } else {
        rat_zero()
    }
}

/// The sum, or difference, of two rational coefficient sequences.
pub open spec fn rat_add_sub(a: Seq<(int, nat)>, b: Seq<(int, nat)>, subtract: bool) -> Seq<
    (int, nat),
> {
    trim_rat(Seq::new(max_nat(a.len(), b.len()), |i: int| rat_sum_at(a, b, subtract, i)))
}

/// Coefficient `k` of a product, accumulated over the first `m` rows from zero.
pub open spec fn rconv(a: Seq<(int, nat)>, b: Seq<(int, nat)>, k: int, m: nat) -> (int, nat)
    decreases m,
{
    if m == 0 {
        rat_zero()
    } else {
        let previous = rconv(a, b, k, (m - 1) as nat);
        if 0 <= k - (m - 1) < b.len() {
            rat_add(previous, rat_mul(a[m - 1], b[k - (m - 1)]))
        } else {
            previous
        }
    }
}

/// The product of two rational coefficient sequences.
pub open spec fn rat_poly_mul(a: Seq<(int, nat)>, b: Seq<(int, nat)>) -> Seq<(int, nat)> {
    if a.len() == 0 || b.len() == 0 {
        Seq::empty()
    } else {
        trim_rat(Seq::new((a.len() + b.len() - 1) as nat, |k: int| rconv(a, b, k, a.len())))
    }
}

/// Every coefficient is a reduced rational.
pub open spec fn all_reduced(s: Seq<(int, nat)>) -> bool {
    forall|i: int| 0 <= i < s.len() ==> is_reduced(#[trigger] s[i])
}

/// Trimming leaves a trimmed prefix.
pub proof fn lemma_trim_rat(s: Seq<(int, nat)>)
    ensures
        is_trimmed_rat(trim_rat(s)),
        trim_rat(s).len() <= s.len(),
        forall|i: int| 0 <= i < trim_rat(s).len() ==> trim_rat(s)[i] == s[i],
        forall|i: int| trim_rat(s).len() <= i < s.len() ==> s[i].0 == 0,
    decreases s.len(),
{
    if s.len() > 0 && s[s.len() - 1].0 == 0 {
        let t = s.drop_last();
        lemma_trim_rat(t);
        assert(trim_rat(s) == trim_rat(t));
        assert forall|i: int| 0 <= i < trim_rat(s).len() implies trim_rat(s)[i] == s[i] by {
            assert(trim_rat(t)[i] == t[i]);
        }
        assert forall|i: int| trim_rat(s).len() <= i < s.len() implies s[i].0 == 0 by {
            if i < t.len() {
                assert(t[i].0 == 0);
            }
        }
    }
}

/// A sequence zero from `r` on with a nonzero entry `r - 1` trims to its first `r` entries.
pub proof fn lemma_trim_rat_exact(s: Seq<(int, nat)>, r: nat)
    requires
        r <= s.len(),
        forall|i: int| r <= i < s.len() ==> s[i].0 == 0,
        r == 0 || s[r - 1].0 != 0,
    ensures
        trim_rat(s) == s.subrange(0, r as int),
    decreases s.len(),
{
    if s.len() > r {
        let t = s.drop_last();
        lemma_trim_rat_exact(t, r);
        assert(t.subrange(0, r as int) =~= s.subrange(0, r as int));
    } else {
        assert(s.subrange(0, r as int) =~= s);
    }
}

/// A polynomial with rational coefficients, lowest degree first, with a nonzero
/// leading coefficient.
#[derive(Debug, Eq, PartialEq)]
pub struct RationalPolynomial {
    coefficients: Vec<ReducedRational>,
}

impl View for RationalPolynomial {
    type V = Seq<(int, nat)>;

    closed spec fn view(&self) -> Seq<(int, nat)> {
        rat_values(self.coefficients@)
    }
}

/// A failure of an operation on rational polynomials: an integer failure, or a
/// coefficient buffer that could not be allocated.
pub open spec fn rational_failure(e: AlgnumError) -> bool {
    integer_failure(e)
}

/// The rational value of a reduced coefficient, checked.
fn coefficient_is_zero(value: &ReducedRational) -> (r: bool)
    ensures
        r == (value@.0 == 0),
{
    value.is_zero()
}

impl RationalPolynomial {
    /// No zero leading coefficient: holds of every value of this type.
    #[verifier::type_invariant]
    pub open spec fn well_formed(self) -> bool {
        is_trimmed_rat(self@)
    }

    /// The polynomial with these coefficients, lowest degree first; high zeros are dropped.
    pub fn from_coefficients(coefficients: Vec<ReducedRational>) -> (r: Self)
        ensures
            r@ == trim_rat(rat_values(coefficients@)),
    {
        let mut coefficients = coefficients;
        let ghost original = rat_values(coefficients@);
        while coefficients.len() > 0 && coefficient_is_zero(&coefficients[coefficients.len() - 1])
            invariant
                trim_rat(original) == trim_rat(rat_values(coefficients@)),
            decreases coefficients@.len(),
        {
            let ghost before = rat_values(coefficients@);
            coefficients.pop();
            proof {
                assert(rat_values(coefficients@) =~= before.drop_last());
            }
        }
        RationalPolynomial { coefficients }
    }

    fn zero() -> (r: Self)
        ensures
            r@ == Seq::<(int, nat)>::empty(),
    {
        RationalPolynomial { coefficients: Vec::new() }
    }

    /// The coefficients, lowest degree first.
    pub fn coefficients(&self) -> (r: &[ReducedRational])
        ensures
            rat_values(r@) == self@,
    {
        self.coefficients.as_slice()
    }

    /// The degree; none for the zero polynomial.
    pub fn degree(&self) -> (r: Option<usize>)
        ensures
            self@.len() == 0 ==> r is None,
            self@.len() > 0 ==> r == Some((self@.len() - 1) as usize),
    {
        if self.coefficients.len() == 0 {
            None
        } else {
            Some(self.coefficients.len() - 1)
        }
    }

    /// Whether this is the zero polynomial.
    pub fn is_zero(&self) -> (r: bool)
        ensures
            r == (self@.len() == 0),
    {
        self.coefficients.len() == 0
    }

    /// An independent copy.
    pub fn try_clone(&self) -> (r: Result<Self, AlgnumError>)
        ensures
            match r {
                Ok(v) => v@ == self@,
                Err(e) => rational_failure(e),
            },
    {
        proof {
            use_type_invariant(self);
        }
        let mut coefficients: Vec<ReducedRational> = Vec::new();
        reserve_elements(
            &mut coefficients,
            self.coefficients.len(),
            AllocationResource::RationalCoefficients,
        )?;
        let mut index: usize = 0;
        while index < self.coefficients.len()
            invariant
                index <= self.coefficients@.len(),
                coefficients@.len() == index,
                forall|i: int| 0 <= i < index ==> #[trigger] coefficients@[i]@ == self@[i],
                is_trimmed_rat(self@),
            decreases self.coefficients@.len() - index,
        {
            let copy = match self.coefficients[index].try_clone() {
                Ok(value) => value,
                Err(error) => return Err(integer_failure_of(error)),
            };
            let ghost before = coefficients@;
            coefficients.push(copy);
            proof {
                assert forall|i: int| 0 <= i < index + 1 implies #[trigger] coefficients@[i]@
                    == self@[i] by {
                    if i < index {
                        assert(coefficients@[i] == before[i]);
                    }
                }
            }
            index = index + 1;
        }
        proof {
            assert(rat_values(coefficients@) =~= self@);
        }
        Ok(RationalPolynomial { coefficients })
    }
}

/// The rational zero.
fn rational_zero() -> (r: Result<ReducedRational, AlgnumError>)
    ensures
        match r {
            Ok(v) => v@ == rat_zero(),
            Err(e) => rational_failure(e),
        },
{
    match ReducedRational::from_bigint(BigInt::zero()) {
        Ok(value) => Ok(value),
        Err(error) => Err(integer_failure_of(error)),
    }
}

/// `-value`, reduced.
fn negate_rational(value: &ReducedRational) -> (r: Result<ReducedRational, AlgnumError>)
    ensures
        match r {
            Ok(v) => v@ == reduced_form(-value@.0, value@.1),
            Err(e) => rational_failure(e),
        },
{
    proof {
        use_type_invariant(value);
    }
    let numerator_source = value.numerator();
    proof {
        use_type_invariant(numerator_source);
        numerator_source.lemma_magnitude();
    }
    let numerator = match numerator_source.negated() {
        Ok(v) => v,
        Err(error) => return Err(integer_failure_of(error)),
    };
    let denominator_source = value.denominator();
    proof {
        use_type_invariant(denominator_source);
        denominator_source.lemma_shape();
    }
    let denominator = match denominator_source.try_clone() {
        Ok(v) => v,
        Err(error) => return Err(integer_failure_of(error)),
    };
    let reduction = match RawRational::new(numerator, denominator).reduce() {
        Ok(v) => v,
        Err(error) => return Err(integer_failure_of(error)),
    };
    Ok(reduction.into_reduced())
}

/// Coefficient `index` of the sum, or difference, of `left` and `right`.
fn rational_sum_at(left: &RationalPolynomial, right: &RationalPolynomial, subtract: bool, index: usize) -> (r:
    Result<ReducedRational, AlgnumError>)
    ensures
        match r {
            Ok(v) => v@ == rat_sum_at(left@, right@, subtract, index as int),
            Err(e) => rational_failure(e),
        },
{
    let left_len = left.coefficients.len();
    let right_len = right.coefficients.len();
    if index < left_len && index < right_len {
        let result = if subtract {
            left.coefficients[index].sub(&right.coefficients[index])
        } else {
            left.coefficients[index].add(&right.coefficients[index])
        };
        match result {
            Ok(v) => Ok(v),
            Err(error) => Err(integer_failure_of(error)),
        }
    } else if index < left_len {
        match left.coefficients[index].try_clone() {
            Ok(v) => Ok(v),
            Err(error) => Err(integer_failure_of(error)),
        }
    } else if index < right_len {
        if subtract {
            negate_rational(&right.coefficients[index])
        } else {
            match right.coefficients[index].try_clone() {
                Ok(v) => Ok(v),
                Err(error) => Err(integer_failure_of(error)),
            }
        }
    } else {
        rational_zero()
    }
}

/// The length of the trimmed sum: one past its highest nonzero coefficient.
fn rational_sum_result_len(
    left: &RationalPolynomial,
    right: &RationalPolynomial,
    subtract: bool,
    upper: usize,
) -> (r: Result<usize, AlgnumError>)
    ensures
        match r {
            Ok(n) => n <= upper && (forall|i: int| n <= i < upper ==> rat_sum_at(
                left@,
                right@,
                subtract,
                i,
            ).0 == 0) && (n == 0 || rat_sum_at(left@, right@, subtract, n - 1).0 != 0),
            Err(e) => rational_failure(e),
        },
{
    let mut index = upper;
    while index > 0
        invariant
            index <= upper,
            forall|i: int| index <= i < upper ==> rat_sum_at(left@, right@, subtract, i).0 == 0,
        decreases index,
    {
        let value = rational_sum_at(left, right, subtract, index - 1)?;
        if !value.is_zero() {
            return Ok(index);
        }
        index = index - 1;
    }
    Ok(0)
}

impl RationalPolynomial {
    fn add_or_sub(&self, rhs: &Self, subtract: bool) -> (r: Result<Self, AlgnumError>)
        ensures
            match r {
                Ok(v) => v@ == rat_add_sub(self@, rhs@, subtract),
                Err(e) => rational_failure(e),
            },
    {
        let upper = if self.coefficients.len() >= rhs.coefficients.len() {
            self.coefficients.len()
        } else {
            rhs.coefficients.len()
        };
        let ghost full = Seq::new(upper as nat, |i: int| rat_sum_at(self@, rhs@, subtract, i));
        let result_len = rational_sum_result_len(self, rhs, subtract, upper)?;
        proof {
            assert forall|i: int| result_len <= i < full.len() implies full[i].0 == 0 by {
                assert(full[i] == rat_sum_at(self@, rhs@, subtract, i));
            }
            if result_len > 0 {
                assert(full[result_len - 1] == rat_sum_at(self@, rhs@, subtract, result_len - 1));
            }
            lemma_trim_rat_exact(full, result_len as nat);
        }
        let mut coefficients: Vec<ReducedRational> = Vec::new();
        reserve_elements(&mut coefficients, result_len, AllocationResource::RationalCoefficients)?;
        let mut index: usize = 0;
        while index < result_len
            invariant
                index <= result_len,
                result_len <= upper,
                coefficients@.len() == index,
                full == Seq::new(upper as nat, |i: int| rat_sum_at(self@, rhs@, subtract, i)),
                forall|i: int| 0 <= i < index ==> #[trigger] coefficients@[i]@ == full[i],
                forall|i: int| result_len <= i < full.len() ==> full[i].0 == 0,
                result_len == 0 || full[result_len - 1].0 != 0,
            decreases result_len - index,
        {
            let value = rational_sum_at(self, rhs, subtract, index)?;
            let ghost before = coefficients@;
            proof {
                assert(full[index as int] == rat_sum_at(self@, rhs@, subtract, index as int));
            }
            coefficients.push(value);
            proof {
                assert forall|i: int| 0 <= i < index + 1 implies #[trigger] coefficients@[i]@
                    == full[i] by {
                    if i < index {
                        assert(coefficients@[i] == before[i]);
                    }
                }
            }
            index = index + 1;
        }
        proof {
            assert(rat_values(coefficients@) =~= full.subrange(0, result_len as int));
        }
        Ok(RationalPolynomial { coefficients })
    }

    /// The sum.
    pub fn add(&self, rhs: &Self) -> (r: Result<Self, AlgnumError>)
        ensures
            match r {
                Ok(v) => v@ == rat_add_sub(self@, rhs@, false),
                Err(e) => rational_failure(e),
            },
    {
        self.add_or_sub(rhs, false)
    }

    /// The difference.
    pub fn sub(&self, rhs: &Self) -> (r: Result<Self, AlgnumError>)
        ensures
            match r {
                Ok(v) => v@ == rat_add_sub(self@, rhs@, true),
                Err(e) => rational_failure(e),
            },
    {
        self.add_or_sub(rhs, true)
    }

    /// The product.
    pub fn mul(&self, rhs: &Self) -> (r: Result<Self, AlgnumError>)
        ensures
            match r {
                Ok(v) => v@ == rat_poly_mul(self@, rhs@),
                Err(e) => product_failure(e),
            },
    {
        if self.is_zero() || rhs.is_zero() {
            return Ok(Self::zero());
        }
        let left_len = self.coefficients.len();
        let right_len = rhs.coefficients.len();
        let ghost a = self@;
        let ghost b = rhs@;
        let result_len = checked_product_coefficient_count(left_len, right_len)?;
        let mut coefficients: Vec<ReducedRational> = Vec::new();
        reserve_elements(&mut coefficients, result_len, AllocationResource::RationalCoefficients)?;
        let mut fill: usize = 0;
        while fill < result_len
            invariant
                fill <= result_len,
                coefficients@.len() == fill,
                forall|k: int| 0 <= k < fill ==> #[trigger] coefficients@[k]@ == rat_zero(),
            decreases result_len - fill,
        {
            let zero = rational_zero()?;
            coefficients.push(zero);
            fill = fill + 1;
        }
        let mut row: usize = 0;
        while row < left_len
            invariant
                a == self@,
                b == rhs@,
                left_len == a.len(),
                right_len == b.len(),
                left_len > 0,
                right_len > 0,
                result_len == left_len - 1 + right_len,
                row <= left_len,
                coefficients@.len() == result_len,
                forall|k: int| 0 <= k < result_len ==> #[trigger] coefficients@[k]@ == rconv(
                    a,
                    b,
                    k,
                    row as nat,
                ),
            decreases left_len - row,
        {
            let mut column: usize = 0;
            while column < right_len
                invariant
                    a == self@,
                    b == rhs@,
                    left_len == a.len(),
                    right_len == b.len(),
                    result_len == left_len - 1 + right_len,
                    row < left_len,
                    column <= right_len,
                    coefficients@.len() == result_len,
                    forall|k: int| 0 <= k < result_len ==> #[trigger] coefficients@[k]@ == (if row <= k
                        < row + column {
                        rconv(a, b, k, (row + 1) as nat)
                    } else {
                        rconv(a, b, k, row as nat)
                    }),
                decreases right_len - column,
            {
                let index = row + column;
                let product = match self.coefficients[row].mul(&rhs.coefficients[column]) {
                    Ok(value) => value,
                    Err(error) => return Err(integer_failure_of(error)),
                };
                let sum = match coefficients[index].add(&product) {
                    Ok(value) => value,
                    Err(error) => return Err(integer_failure_of(error)),
                };
                let ghost before = coefficients@;
                coefficients.set(index, sum);
                proof {
                    assert forall|k: int| 0 <= k < result_len implies #[trigger] coefficients@[k]@
                        == (if row <= k < row + column + 1 {
                        rconv(a, b, k, (row + 1) as nat)
                    } else {
                        rconv(a, b, k, row as nat)
                    }) by {
                        if k != index {
                            assert(coefficients@[k] == before[k]);
                        } else {
                            assert(before[k]@ == rconv(a, b, k, row as nat));
                            assert(k - row == column);
                        }
                    }
                }
                column = column + 1;
            }
            proof {
                assert forall|k: int| 0 <= k < result_len implies #[trigger] coefficients@[k]@
                    == rconv(a, b, k, (row + 1) as nat) by {
                    if !(row <= k < row + right_len) {
                        assert(!(0 <= k - row < b.len()));
                    }
                }
            }
            row = row + 1;
        }
        proof {
            assert(rat_values(coefficients@) =~= Seq::new(
                (a.len() + b.len() - 1) as nat,
                |k: int| rconv(a, b, k, a.len()),
            ));
        }
        Ok(Self::from_coefficients(coefficients))
    }
}

/// The reduced quotient of two rationals, as `ReducedRational::div` computes it.
pub open spec fn rat_div(p: (int, nat), q: (int, nat)) -> (int, nat) {
    reduced_form(
        if q.0 < 0 {
            -(p.0 * q.1)
        } else {
            p.0 * q.1
        },
        p.1 * abs(q.0),
    )
}

/// Subtracting `(x / y) * y` from `x` leaves zero: the step of long division cancels
/// the leading coefficient.
pub proof fn lemma_cancel_leading(x: (int, nat), y: (int, nat))
    requires
        is_reduced(x),
        is_reduced(y),
        y.0 != 0,
    ensures
        rat_sub(x, rat_mul(rat_div(x, y), y)).0 == 0,
{
    let ay = abs(y.0);
    let n = if y.0 < 0 { -(x.0 * y.1) } else { x.0 * y.1 };
    let d = x.1 * ay;
    assert(d > 0) by (nonlinear_arith)
        requires
            x.1 > 0,
            ay > 0,
            d == x.1 * ay,
    ;
    lemma_reduced_form(n, d);
    let f = reduced_form(n, d);
    let pn = f.0 * y.0;
    let pd = f.1 * y.1;
    assert(pd > 0) by (nonlinear_arith)
        requires
            f.1 > 0,
            y.1 > 0,
            pd == f.1 * y.1,
    ;
    lemma_reduced_form(pn, pd);
    let p = reduced_form(pn, pd);
    // f.0 * d == n * f.1 and p.0 * pd == pn * p.1.
    assert(n * y.0 == x.0 * y.1 * ay) by (nonlinear_arith)
        requires
            n == (if y.0 < 0 { -(x.0 * y.1) } else { x.0 * y.1 }),
            ay == (if y.0 < 0 { -y.0 } else { y.0 }),
    ;
    let c = f.1 * y.1 * ay;
    let w = x.1 * ay;
    let left = p.0 * x.1 * c;
    assert(left == (p.0 * pd) * w) by (nonlinear_arith)
        requires
            left == p.0 * x.1 * c,
            c == f.1 * y.1 * ay,
            pd == f.1 * y.1,
            w == x.1 * ay,
    ;
    assert((p.0 * pd) * w == (pn * p.1) * w);
    assert((pn * p.1) * w == (f.0 * d) * (y.0 * p.1)) by (nonlinear_arith)
        requires
            pn == f.0 * y.0,
            d == x.1 * ay,
            w == x.1 * ay,
    ;
    assert((f.0 * d) * (y.0 * p.1) == (n * f.1) * (y.0 * p.1));
    assert((n * f.1) * (y.0 * p.1) == (n * y.0) * (f.1 * p.1)) by (nonlinear_arith);
    assert((n * y.0) * (f.1 * p.1) == (x.0 * y.1 * ay) * (f.1 * p.1));
    assert((x.0 * y.1 * ay) * (f.1 * p.1) == x.0 * p.1 * c) by (nonlinear_arith)
        requires
            c == f.1 * y.1 * ay,
    ;
    assert(c > 0) by (nonlinear_arith)
        requires
            f.1 > 0,
            y.1 > 0,
            ay > 0,
            c == f.1 * y.1 * ay,
    ;
    assert(x.0 * p.1 == p.0 * x.1) by (nonlinear_arith)
        requires
            p.0 * x.1 * c == x.0 * p.1 * c,
            c > 0,
    ;
    let sd = x.1 * p.1;
    assert(sd > 0) by (nonlinear_arith)
        requires
            x.1 > 0,
            p.1 > 0,
            sd == x.1 * p.1,
    ;
    lemma_reduced_form(x.0 * p.1 - p.0 * x.1, sd);
}

/// Drops the high zero coefficients of `coefficients`.
fn trim_rational_coefficients(coefficients: &mut Vec<ReducedRational>)
    ensures
        rat_values(final(coefficients)@) == trim_rat(rat_values(old(coefficients)@)),
{
    let ghost original = rat_values(coefficients@);
    while coefficients.len() > 0 && coefficient_is_zero(&coefficients[coefficients.len() - 1])
        invariant
            trim_rat(original) == trim_rat(rat_values(coefficients@)),
        decreases coefficients@.len(),
    {
        let ghost before = rat_values(coefficients@);
        coefficients.pop();
        proof {
            assert(rat_values(coefficients@) =~= before.drop_last());
        }
    }
    proof {
        assert(trim_rat(rat_values(coefficients@)) == rat_values(coefficients@));
    }
}

/// A divisor for long division: nonzero, trimmed, with reduced coefficients.
pub open spec fn is_divisor_poly(b: Seq<(int, nat)>) -> bool {
    &&& b.len() > 0
    &&& b[b.len() - 1].0 != 0
    &&& all_reduced(b)
}

/// One step of long division of `r` by `b`: the leading term of `r` over that of `b`,
/// times `b` shifted to the top of `r`, subtracted from `r`, high zeros dropped.
pub open spec fn division_step(r: Seq<(int, nat)>, b: Seq<(int, nat)>) -> Seq<(int, nat)> {
    let offset = r.len() - b.len();
    let f = rat_div(r[r.len() - 1], b[b.len() - 1]);
    trim_rat(
        Seq::new(
            r.len(),
            |k: int|
                if k >= offset {
                    rat_sub(r[k], rat_mul(f, b[k - offset]))
                } else {
                    r[k]
                },
        ),
    )
}

/// A division step keeps the coefficients reduced and shortens the remainder.
pub proof fn lemma_division_step(r: Seq<(int, nat)>, b: Seq<(int, nat)>)
    requires
        is_divisor_poly(b),
        all_reduced(r),
        r.len() >= b.len(),
    ensures
        all_reduced(division_step(r, b)),
        division_step(r, b).len() < r.len(),
{
    let offset = r.len() - b.len();
    let x = r[r.len() - 1];
    let y = b[b.len() - 1];
    let f = rat_div(x, y);
    let full = Seq::new(
        r.len(),
        |k: int|
            if k >= offset {
                rat_sub(r[k], rat_mul(f, b[k - offset]))
            } else {
                r[k]
            },
    );
    lemma_cancel_leading(x, y);
    assert(full[r.len() - 1] == rat_sub(x, rat_mul(f, y)));
    lemma_trim_rat(full);
    lemma_trim_rat(full.drop_last());
    assert(trim_rat(full) == trim_rat(full.drop_last()));
    assert forall|i: int| 0 <= i < division_step(r, b).len() implies #[trigger] is_reduced(
        division_step(r, b)[i],
    ) by {
        assert(division_step(r, b)[i] == full[i]);
        if i >= offset {
            let p = rat_mul(f, b[i - offset]);
            assert(is_reduced(r[i]));
            assert(is_reduced(b[i - offset]));
            assert(x.1 * abs(y.0) > 0) by (nonlinear_arith)
                requires
                    x.1 > 0,
                    abs(y.0) > 0,
            ;
            crate::rational::lemma_reduced_form(
                if y.0 < 0 {
                    -(x.0 * y.1)
                } else {
                    x.0 * y.1
                },
                x.1 * abs(y.0),
            );
            lemma_rat_ops_reduced(r[i], b[i - offset], f);
        }
    }
}

/// Products, differences and quotients of reduced rationals are reduced.
proof fn lemma_rat_ops_reduced(a: (int, nat), c: (int, nat), f: (int, nat))
    requires
        is_reduced(a),
        is_reduced(c),
        f.1 > 0,
    ensures
        is_reduced(rat_mul(f, c)),
        is_reduced(rat_sub(a, rat_mul(f, c))),
{
    assert(f.1 * c.1 > 0) by (nonlinear_arith)
        requires
            f.1 > 0,
            c.1 > 0,
    ;
    crate::rational::lemma_reduced_form(f.0 * c.0, f.1 * c.1);
    let p = rat_mul(f, c);
    assert(a.1 * p.1 > 0) by (nonlinear_arith)
        requires
            a.1 > 0,
            p.1 > 0,
    ;
    crate::rational::lemma_reduced_form(a.0 * p.1 - p.0 * a.1, a.1 * p.1);
}

/// Long division of `r` by `b`, the quotient coefficients so far in `q`: the step
/// repeated while the remainder is at least as long as the divisor.
pub open spec fn long_division(r: Seq<(int, nat)>, b: Seq<(int, nat)>, q: Seq<(int, nat)>) -> (
    Seq<(int, nat)>,
    Seq<(int, nat)>,
)
    decreases r.len(),
    when is_divisor_poly(b) && all_reduced(r)
{
    if r.len() < b.len() {
        (q, r)
    } else {
        proof {
            lemma_division_step(r, b);
        }
        long_division(
            division_step(r, b),
            b,
            q.update(r.len() - b.len(), rat_div(r[r.len() - 1], b[b.len() - 1])),
        )
    }
}

/// The quotient and remainder of `a` by `b`: long division from a zero quotient with a
/// coefficient for each degree from zero to `deg a - deg b`.
pub open spec fn rat_div_rem(a: Seq<(int, nat)>, b: Seq<(int, nat)>) -> (Seq<(int, nat)>, Seq<(int, nat)>) {
    if a.len() < b.len() {
        (Seq::empty(), a)
    } else {
        let (q, m) = long_division(a, b, Seq::new((a.len() - b.len() + 1) as nat, |i: int| rat_zero()));
        (trim_rat(q), m)
    }
}

/// Each coefficient divided by the leading one.
pub open spec fn rat_monic(g: Seq<(int, nat)>) -> Seq<(int, nat)> {
    Seq::new(g.len(), |i: int| rat_div(g[i], g[g.len() - 1]))
}

/// The remainder of `a` by `b` is shorter than `b` and reduced.
pub proof fn lemma_remainder_shape(a: Seq<(int, nat)>, b: Seq<(int, nat)>)
    requires
        is_divisor_poly(b),
        all_reduced(a),
    ensures
        rat_div_rem(a, b).1.len() < b.len(),
        all_reduced(rat_div_rem(a, b).1),
{
    if a.len() >= b.len() {
        lemma_long_division_shape(a, b, Seq::new((a.len() - b.len() + 1) as nat, |i: int| rat_zero()));
    }
}

/// Euclid's algorithm: the last nonzero remainder of the sequence that starts with `a`
/// and `b`.
pub open spec fn rat_euclid(a: Seq<(int, nat)>, b: Seq<(int, nat)>) -> Seq<(int, nat)>
    decreases b.len(),
    when all_reduced(a) && all_reduced(b) && is_trimmed_rat(b)
{
    if b.len() == 0 {
        a
    } else {
        proof {
            lemma_remainder_shape(a, b);
            lemma_trim_rat(rat_div_rem(a, b).1);
        }
        rat_euclid(b, rat_div_rem(a, b).1)
    }
}

/// A monic polynomial is trimmed.
proof fn lemma_monic_trimmed(g: Seq<(int, nat)>)
    requires
        g.len() > 0,
        g[g.len() - 1].0 != 0,
        is_reduced(g[g.len() - 1]),
    ensures
        is_trimmed_rat(rat_monic(g)),
        rat_monic(g)[g.len() - 1] == (1int, 1nat),
{
    lemma_div_self(g[g.len() - 1]);
}

/// The derivative of a rational coefficient sequence, each coefficient reduced.
pub open spec fn rat_derivative(s: Seq<(int, nat)>) -> Seq<(int, nat)> {
    if s.len() <= 1 {
        Seq::<(int, nat)>::empty()
    } else {
        trim_rat(Seq::new((s.len() - 1) as nat, |i: int| rat_mul(s[i + 1], ((i + 1) as int, 1nat))))
    }
}

/// The monic greatest common divisor by Euclid's algorithm; zero for two zeros.
pub open spec fn rat_gcd(a: Seq<(int, nat)>, b: Seq<(int, nat)>) -> Seq<(int, nat)> {
    if rat_euclid(a, b).len() == 0 {
        Seq::<(int, nat)>::empty()
    } else {
        rat_monic(rat_euclid(a, b))
    }
}

/// Long division of a trimmed polynomial leaves a trimmed remainder.
proof fn lemma_long_division_trimmed(r: Seq<(int, nat)>, b: Seq<(int, nat)>, q: Seq<(int, nat)>)
    requires
        is_divisor_poly(b),
        all_reduced(r),
        is_trimmed_rat(r),
    ensures
        is_trimmed_rat(long_division(r, b, q).1),
    decreases r.len(),
{
    if r.len() >= b.len() {
        lemma_division_step(r, b);
        let offset = r.len() - b.len();
        let f = rat_div(r[r.len() - 1], b[b.len() - 1]);
        lemma_trim_rat(
            Seq::new(
                r.len(),
                |k: int|
                    if k >= offset {
                        rat_sub(r[k], rat_mul(f, b[k - offset]))
                    } else {
                        r[k]
                    },
            ),
        );
        lemma_long_division_trimmed(
            division_step(r, b),
            b,
            q.update(r.len() - b.len(), rat_div(r[r.len() - 1], b[b.len() - 1])),
        );
    }
}

/// Euclid's remainder sequence ends in a polynomial no longer than either nonzero
/// operand.
proof fn lemma_euclid_len(a: Seq<(int, nat)>, b: Seq<(int, nat)>)
    requires
        all_reduced(a),
        all_reduced(b),
        is_trimmed_rat(a),
        is_trimmed_rat(b),
        b.len() > 0,
    ensures
        rat_euclid(a, b).len() <= b.len(),
        a.len() > 0 ==> rat_euclid(a, b).len() <= a.len(),
    decreases b.len(),
{
    lemma_remainder_shape(a, b);
    let r = rat_div_rem(a, b).1;
    if a.len() >= b.len() {
        lemma_long_division_trimmed(a, b, Seq::new((a.len() - b.len() + 1) as nat, |i: int| rat_zero()));
    }
    assert(is_trimmed_rat(r));
    assert(rat_euclid(a, b) == rat_euclid(b, r));
    if r.len() > 0 {
        lemma_euclid_len(b, r);
    } else {
        assert(rat_euclid(b, r) == b);
    }
}

/// The gcd of two nonzero polynomials has degree at most that of each: a result of
/// higher degree divides neither.
pub proof fn lemma_gcd_degree_bound(a: Seq<(int, nat)>, b: Seq<(int, nat)>)
    requires
        all_reduced(a),
        all_reduced(b),
        is_trimmed_rat(a),
        is_trimmed_rat(b),
        a.len() > 0,
        b.len() > 0,
    ensures
        rat_gcd(a, b).len() <= a.len(),
        rat_gcd(a, b).len() <= b.len(),
{
    lemma_euclid_len(a, b);
}

/// The square-free part of an integer polynomial: its primitive part over its gcd with
/// its derivative, as a primitive integer polynomial.
pub open spec fn square_free_of(p: Seq<int>) -> Seq<int> {
    let rational = Seq::new(primitive_of(p).len(), |i: int| (primitive_of(p)[i], 1nat));
    let g = rat_gcd(rational, rat_derivative(rational));
    primitive_of(trim_int(scaled_integers(rat_div_rem(rational, g).0)))
}

/// The gcd of the primitive part with its derivative does not divide the primitive part
/// over the rationals.
pub open spec fn gcd_leaves_remainder(p: Seq<int>) -> bool {
    let rational = Seq::new(primitive_of(p).len(), |i: int| (primitive_of(p)[i], 1nat));
    rat_div_rem(rational, rat_gcd(rational, rat_derivative(rational))).1.len() > 0
}

/// Walks the coefficients to bring each one's lowest-terms invariant into the proof.
fn confirm_reduced(values: &[ReducedRational])
    ensures
        all_reduced(rat_values(values@)),
{
    let mut index: usize = 0;
    while index < values.len()
        invariant
            index <= values@.len(),
            forall|i: int| 0 <= i < index ==> #[trigger] is_reduced(values@[i]@),
        decreases values@.len() - index,
    {
        let value = &values[index];
        proof {
            use_type_invariant(value);
        }
        index = index + 1;
    }
    proof {
        assert forall|i: int| 0 <= i < rat_values(values@).len() implies #[trigger] is_reduced(
            rat_values(values@)[i],
        ) by {
            assert(rat_values(values@)[i] == values@[i]@);
        }
    }
}

/// The remainder and quotient of long division have these shapes.
pub proof fn lemma_long_division_shape(r: Seq<(int, nat)>, b: Seq<(int, nat)>, q: Seq<(int, nat)>)
    requires
        is_divisor_poly(b),
        all_reduced(r),
        r.len() <= q.len() + b.len() - 1,
    ensures
        long_division(r, b, q).1.len() < b.len(),
        long_division(r, b, q).0.len() == q.len(),
        all_reduced(long_division(r, b, q).1),
    decreases r.len(),
{
    if r.len() >= b.len() {
        lemma_division_step(r, b);
        lemma_long_division_shape(
            division_step(r, b),
            b,
            q.update(r.len() - b.len(), rat_div(r[r.len() - 1], b[b.len() - 1])),
        );
    }
}

impl RationalPolynomial {
    /// Long division by a nonzero polynomial: the quotient and a remainder of smaller
    /// degree, by repeatedly cancelling the leading term of the remainder.
    pub fn div_rem(&self, rhs: &Self) -> (r: Result<(Self, Self), AlgnumError>)
        ensures
            rhs@.len() == 0 ==> r == Err::<(RationalPolynomial, RationalPolynomial), AlgnumError>(
                AlgnumError::Bigint(BigintError::DivisionByZero),
            ),
            rhs@.len() > 0 ==> match r {
                Ok((q, m)) => (q@, m@) == rat_div_rem(self@, rhs@) && m@.len() < rhs@.len()
                    && q@.len() <= self@.len() && rat_add_sub(rat_poly_mul(rhs@, q@), m@, false)
                    == self@,
                Err(e) => rational_failure(e),
            },
    {
        proof {
            use_type_invariant(self);
            use_type_invariant(rhs);
        }
        if rhs.coefficients.len() == 0 {
            return Err(AlgnumError::Bigint(BigintError::DivisionByZero));
        }
        let ghost a = self@;
        let ghost b = rhs@;
        confirm_reduced(self.coefficients.as_slice());
        confirm_reduced(rhs.coefficients.as_slice());
        proof {
            crate::division::lemma_division_reconstructs(a, b);
        }
        if self.coefficients.len() == 0 {
            return Ok((Self::zero(), Self::zero()));
        }
        let rhs_degree = rhs.coefficients.len() - 1;
        let left_degree = self.coefficients.len() - 1;
        if left_degree < rhs_degree {
            let copy = self.try_clone()?;
            return Ok((Self::zero(), copy));
        }
        let quotient_len = left_degree - rhs_degree + 1;
        let ghost zeros = Seq::new(quotient_len as nat, |i: int| rat_zero());
        let mut quotient: Vec<ReducedRational> = Vec::new();
        reserve_elements(&mut quotient, quotient_len, AllocationResource::RationalCoefficients)?;
        let mut fill: usize = 0;
        while fill < quotient_len
            invariant
                b == rhs@,
                b.len() > 0,
                fill <= quotient_len,
                quotient@.len() == fill,
                forall|i: int| 0 <= i < fill ==> #[trigger] quotient@[i]@ == rat_zero(),
            decreases quotient_len - fill,
        {
            let zero = rational_zero()?;
            quotient.push(zero);
            fill = fill + 1;
        }
        proof {
            assert(rat_values(quotient@) =~= zeros);
        }
        let copy = self.try_clone()?;
        let mut remainder = copy.coefficients;
        let divisor_top = &rhs.coefficients[rhs_degree];
        proof {
            use_type_invariant(divisor_top);
        }
        let ghost y = divisor_top@;
        let ghost target = long_division(a, b, zeros);
        while remainder.len() >= rhs.coefficients.len()
            invariant
                a == self@,
                b == rhs@,
                rhs_degree + 1 == b.len(),
                y == b[rhs_degree as int],
                divisor_top@ == y,
                is_divisor_poly(b),
                all_reduced(rat_values(remainder@)),
                is_trimmed_rat(rat_values(remainder@)),
                remainder@.len() <= a.len(),
                quotient@.len() == quotient_len,
                quotient_len == a.len() - b.len() + 1,
                long_division(rat_values(remainder@), b, rat_values(quotient@)) == target,
            decreases remainder@.len(),
        {
            let ghost old_r = rat_values(remainder@);
            let ghost old_q = rat_values(quotient@);
            let remainder_degree = remainder.len() - 1;
            let offset = remainder_degree - rhs_degree;
            let leading = &remainder[remainder_degree];
            proof {
                assert(leading@ == old_r[remainder_degree as int]);
            }
            let ghost x = leading@;
            let factor = match leading.div(divisor_top) {
                Ok(value) => value,
                Err(error) => return Err(integer_failure_of(error)),
            };
            let ghost f = factor@;
            let factor_copy = match factor.try_clone() {
                Ok(value) => value,
                Err(error) => return Err(integer_failure_of(error)),
            };
            quotient.set(offset, factor_copy);
            proof {
                assert(rat_values(quotient@) =~= old_q.update(offset as int, f));
            }
            let mut index: usize = 0;
            while index < rhs.coefficients.len()
                invariant
                    b == rhs@,
                    rhs_degree + 1 == b.len(),
                    remainder@.len() == remainder_degree + 1,
                    old_r.len() == remainder_degree + 1,
                    offset + rhs_degree == remainder_degree,
                    index <= b.len(),
                    factor@ == f,
                    forall|k: int|
                        0 <= k < old_r.len() ==> #[trigger] rat_values(remainder@)[k] == if offset
                            <= k < offset + index {
                            rat_sub(old_r[k], rat_mul(f, b[k - offset]))
                        } else {
                            old_r[k]
                        },
                decreases b.len() - index,
            {
                let target_index = offset + index;
                let product = match factor.mul(&rhs.coefficients[index]) {
                    Ok(value) => value,
                    Err(error) => return Err(integer_failure_of(error)),
                };
                let difference = match remainder[target_index].sub(&product) {
                    Ok(value) => value,
                    Err(error) => return Err(integer_failure_of(error)),
                };
                let ghost before = rat_values(remainder@);
                proof {
                    assert(before[target_index as int] == old_r[target_index as int]);
                    assert(rhs.coefficients@[index as int]@ == b[index as int]);
                }
                remainder.set(target_index, difference);
                proof {
                    assert forall|k: int| 0 <= k < old_r.len() implies #[trigger] rat_values(
                        remainder@,
                    )[k] == if offset <= k < offset + index + 1 {
                        rat_sub(old_r[k], rat_mul(f, b[k - offset]))
                    } else {
                        old_r[k]
                    } by {
                        if k != target_index {
                            assert(rat_values(remainder@)[k] == before[k]);
                        }
                    }
                }
                index = index + 1;
            }
            let ghost stepped = rat_values(remainder@);
            proof {
                assert(x == old_r[old_r.len() - 1]);
                assert(stepped =~= Seq::new(
                    old_r.len(),
                    |k: int|
                        if k >= offset {
                            rat_sub(old_r[k], rat_mul(f, b[k - offset]))
                        } else {
                            old_r[k]
                        },
                ));
            }
            trim_rational_coefficients(&mut remainder);
            proof {
                assert(rat_values(remainder@) == division_step(old_r, b));
                lemma_division_step(old_r, b);
                lemma_trim_rat(stepped);
                assert(offset == old_r.len() - b.len());
            }
        }
        let remainder = RationalPolynomial { coefficients: remainder };
        proof {
            lemma_trim_rat(rat_values(quotient@));
            lemma_long_division_shape(a, b, zeros);
        }
        Ok((Self::from_coefficients(quotient), remainder))
    }
}

/// A nonzero rational divided by itself is one.
pub proof fn lemma_div_self(x: (int, nat))
    requires
        is_reduced(x),
        x.0 != 0,
    ensures
        rat_div(x, x) == (1int, 1nat),
{
    let k = abs(x.0) * x.1;
    assert(k > 0) by (nonlinear_arith)
        requires
            abs(x.0) > 0,
            x.1 > 0,
            k == abs(x.0) * x.1,
    ;
    let n = if x.0 < 0 { -(x.0 * x.1) } else { x.0 * x.1 };
    assert(n == k) by (nonlinear_arith)
        requires
            n == (if x.0 < 0 { -(x.0 * x.1) } else { x.0 * x.1 }),
            k == abs(x.0) * x.1,
            abs(x.0) == (if x.0 < 0 { -x.0 } else { x.0 }),
    ;
    assert(x.1 * abs(x.0) == k) by (nonlinear_arith)
        requires
            k == abs(x.0) * x.1,
    ;
    assert(gcd_spec(k, k) == gcd_spec(k, k % k));
    assert(k % k == 0);
    assert(k / k == 1);
}

/// The coefficients divided by the leading one.
fn monic_coefficients(coefficients: &Vec<ReducedRational>) -> (r: Result<Vec<ReducedRational>, AlgnumError>)
    requires
        coefficients@.len() > 0,
        rat_values(coefficients@)[coefficients@.len() - 1].0 != 0,
    ensures
        match r {
            Ok(v) => rat_values(v@) == rat_monic(rat_values(coefficients@)) && rat_values(v@)[v@.len()
                - 1] == (1int, 1nat),
            Err(e) => rational_failure(e),
        },
{
    let last = coefficients.len() - 1;
    let leading_ref = &coefficients[last];
    proof {
        use_type_invariant(leading_ref);
    }
    let leading = match leading_ref.try_clone() {
        Ok(value) => value,
        Err(error) => return Err(integer_failure_of(error)),
    };
    let mut result: Vec<ReducedRational> = Vec::new();
    reserve_elements(&mut result, coefficients.len(), AllocationResource::RationalCoefficients)?;
    let mut index: usize = 0;
    while index < coefficients.len()
        invariant
            index <= coefficients@.len(),
            result@.len() == index,
            last + 1 == coefficients@.len(),
            leading@ == coefficients@[last as int]@,
            leading@.0 != 0,
            is_reduced(leading@),
            index > last ==> result@[last as int]@ == (1int, 1nat),
            forall|k: int|
                0 <= k < index ==> #[trigger] result@[k]@ == rat_div(
                    coefficients@[k]@,
                    coefficients@[last as int]@,
                ),
        decreases coefficients@.len() - index,
    {
        let value = match coefficients[index].div(&leading) {
            Ok(v) => v,
            Err(error) => return Err(integer_failure_of(error)),
        };
        proof {
            if index == last {
                lemma_div_self(leading@);
            }
        }
        let ghost before = result@;
        result.push(value);
        proof {
            assert forall|k: int| 0 <= k < index + 1 implies #[trigger] result@[k]@ == rat_div(
                coefficients@[k]@,
                coefficients@[last as int]@,
            ) by {
                if k < index {
                    assert(result@[k] == before[k]);
                }
            }
        }
        index = index + 1;
    }
    proof {
        assert(rat_values(result@) =~= rat_monic(rat_values(coefficients@)));
    }
    Ok(result)
}

impl RationalPolynomial {
    /// The greatest common divisor by Euclid's algorithm, made monic; zero only for
    /// two zero polynomials.
    pub fn gcd(&self, rhs: &Self) -> (r: Result<Self, AlgnumError>)
        ensures
            match r {
                Ok(g) => g@ == rat_gcd(self@, rhs@) && (g@.len() == 0 <==> (self@.len() == 0 && rhs@.len() == 0)) && (g@.len() > 0
                    ==> g@[g@.len() - 1] == (1int, 1nat)),
                Err(e) => rational_failure(e),
            },
    {
        proof {
            use_type_invariant(self);
            use_type_invariant(rhs);
        }
        confirm_reduced(self.coefficients.as_slice());
        confirm_reduced(rhs.coefficients.as_slice());
        let ghost target = rat_euclid(self@, rhs@);
        let mut left = self.try_clone()?;
        let mut right = rhs.try_clone()?;
        while !right.is_zero()
            invariant
                (left@.len() == 0 && right@.len() == 0) <==> (self@.len() == 0 && rhs@.len() == 0),
                all_reduced(left@),
                all_reduced(right@),
                is_trimmed_rat(right@),
                rat_euclid(left@, right@) == target,
            decreases right@.len(),
        {
            proof {
                use_type_invariant(&right);
                lemma_remainder_shape(left@, right@);
            }
            let (_, remainder) = left.div_rem(&right)?;
            proof {
                use_type_invariant(&remainder);
            }
            left = right;
            right = remainder;
        }
        if left.is_zero() {
            return Ok(left);
        }
        proof {
            use_type_invariant(&left);
        }
        let coefficients = monic_coefficients(&left.coefficients)?;
        proof {
            lemma_monic_trimmed(left@);
        }
        Ok(RationalPolynomial { coefficients })
    }

    /// The derivative.
    pub fn derivative_internal(&self) -> (r: Result<Self, AlgnumError>)
        ensures
            match r {
                Ok(v) => v@ == rat_derivative(self@),
                Err(e) => rational_failure(e),
            },
    {
        let len = self.coefficients.len();
        if len <= 1 {
            return Ok(Self::zero());
        }
        let ghost a = self@;
        let mut coefficients: Vec<ReducedRational> = Vec::new();
        reserve_elements(&mut coefficients, len - 1, AllocationResource::RationalCoefficients)?;
        let mut index: usize = 1;
        while index < len
            invariant
                a == self@,
                len == a.len(),
                1 <= index <= len,
                coefficients@.len() == index - 1,
                forall|i: int| 0 <= i < index - 1 ==> #[trigger] coefficients@[i]@ == rat_mul(
                    a[i + 1],
                    ((i + 1) as int, 1nat),
                ),
            decreases len - index,
        {
            let integer = match BigInt::try_from(index) {
                Ok(value) => value,
                Err(error) => return Err(integer_failure_of(error)),
            };
            let multiplier = match ReducedRational::from_bigint(integer) {
                Ok(value) => value,
                Err(error) => return Err(integer_failure_of(error)),
            };
            let term = match self.coefficients[index].mul(&multiplier) {
                Ok(value) => value,
                Err(error) => return Err(integer_failure_of(error)),
            };
            let ghost before = coefficients@;
            coefficients.push(term);
            proof {
                assert forall|i: int| 0 <= i < index implies #[trigger] coefficients@[i]@ == rat_mul(
                    a[i + 1],
                    ((i + 1) as int, 1nat),
                ) by {
                    if i < index - 1 {
                        assert(coefficients@[i] == before[i]);
                    }
                }
            }
            index = index + 1;
        }
        proof {
            assert(rat_values(coefficients@) =~= Seq::new(
                (a.len() - 1) as nat,
                |i: int| rat_mul(a[i + 1], ((i + 1) as int, 1nat)),
            ));
        }
        Ok(Self::from_coefficients(coefficients))
    }
}

impl Polynomial {
    /// The same polynomial with rational coefficients.
    pub fn to_rational(&self) -> (r: Result<RationalPolynomial, AlgnumError>)
        ensures
            match r {
                Ok(v) => v@ == Seq::new(self@.len(), |i: int| (self@[i], 1nat)),
                Err(e) => rational_failure(e),
            },
    {
        proof {
            use_type_invariant(self);
        }
        let mut coefficients: Vec<ReducedRational> = Vec::new();
        reserve_elements(
            &mut coefficients,
            self.coefficients.len(),
            AllocationResource::RationalCoefficients,
        )?;
        let mut index: usize = 0;
        while index < self.coefficients.len()
            invariant
                index <= self@.len(),
                self.coefficients@.len() == self@.len(),
                coefficients@.len() == index,
                forall|i: int| 0 <= i < index ==> #[trigger] coefficients@[i]@ == (self@[i], 1nat),
                is_trimmed(self@),
            decreases self@.len() - index,
        {
            let source = &self.coefficients[index];
            proof {
                use_type_invariant(source);
                source.lemma_magnitude();
            }
            let copy = match source.try_clone() {
                Ok(v) => v,
                Err(error) => return Err(integer_failure_of(error)),
            };
            let value = match ReducedRational::from_bigint(copy) {
                Ok(v) => v,
                Err(error) => return Err(integer_failure_of(error)),
            };
            let ghost before = coefficients@;
            coefficients.push(value);
            proof {
                assert forall|i: int| 0 <= i < index + 1 implies #[trigger] coefficients@[i]@ == (
                    self@[i],
                    1nat,
                ) by {
                    if i < index {
                        assert(coefficients@[i] == before[i]);
                    }
                }
            }
            index = index + 1;
        }
        proof {
            assert(rat_values(coefficients@) =~= Seq::new(self@.len(), |i: int| (self@[i], 1nat)));
        }
        Ok(RationalPolynomial { coefficients })
    }
}

/// The content of integer coefficients: the gcd of their magnitudes, folded from
/// the lowest degree up, skipping zeros (zero when all are zero).
pub open spec fn content_of(s: Seq<int>) -> nat
    decreases s.len(),
{
    if s.len() == 0 {
        0
    } else {
        let previous = content_of(s.drop_last());
        let last = s[s.len() - 1];
        if last == 0 {
            previous
        } else if previous == 0 {
            abs(last)
        } else {
            gcd_spec(previous, abs(last))
        }
    }
}

/// Divisibility is transitive.
pub proof fn lemma_divides_trans(a: nat, b: nat, c: nat)
    requires
        divides(a, b),
        divides(b, c),
    ensures
        divides(a, c),
{
    let k1 = choose|k: nat| b == times(k, a);
    let k2 = choose|k: nat| c == times(k, b);
    assert(c == times(k2 * k1, a)) by (nonlinear_arith)
        requires
            b == k1 * a,
            c == k2 * b,
    ;
}

/// The content divides every coefficient, and is zero only when all are zero.
pub proof fn lemma_content(s: Seq<int>)
    ensures
        forall|j: int| 0 <= j < s.len() ==> divides(content_of(s), #[trigger] abs(s[j])),
        content_of(s) == 0 <==> forall|j: int| 0 <= j < s.len() ==> s[j] == 0,
    decreases s.len(),
{
    if s.len() > 0 {
        let t = s.drop_last();
        lemma_content(t);
        let previous = content_of(t);
        let last = s[s.len() - 1];
        let c = content_of(s);
        assert forall|j: int| 0 <= j < s.len() implies divides(c, #[trigger] abs(s[j])) by {
            if j < t.len() {
                assert(s[j] == t[j]);
                assert(divides(previous, abs(t[j])));
            }
            if last == 0 {
                if j == s.len() - 1 {
                    assert(0nat == times(0, c));
                }
            } else if previous == 0 {
                if j < t.len() {
                    assert(t[j] == 0);
                    assert(0nat == times(0, c));
                } else {
                    assert(abs(last) == times(1, abs(last)));
                }
            } else {
                lemma_gcd_divides(previous, abs(last));
                if j < t.len() {
                    lemma_divides_trans(c, previous, abs(s[j]));
                }
            }
        }
        if c == 0 {
            if last != 0 && previous != 0 {
                lemma_gcd_positive(previous, abs(last));
            }
        }
        if forall|j: int| 0 <= j < s.len() ==> s[j] == 0 {
            assert forall|j: int| 0 <= j < t.len() implies t[j] == 0 by {
                assert(s[j] == 0);
            }
        }
        if c == 0 {
            assert forall|j: int| 0 <= j < s.len() implies s[j] == 0 by {
                if j < t.len() {
                    assert(t[j] == 0);
                }
            }
        }
    }
}

/// The coefficients divided by their content, negated when the leading one is negative.
pub open spec fn primitive_of(s: Seq<int>) -> Seq<int> {
    Seq::new(
        s.len(),
        |i: int|
            if s[s.len() - 1] < 0 {
                -(s[i] / (content_of(s) as int))
            } else {
                s[i] / (content_of(s) as int)
            },
    )
}

/// The least common multiple as `BigUint::lcm` computes it.
pub open spec fn lcm_of(a: nat, b: nat) -> nat {
    a / gcd_spec(a, b) * b
}

/// The least common multiple of the denominators, from one.
pub open spec fn common_denominator(s: Seq<(int, nat)>) -> nat
    decreases s.len(),
{
    if s.len() == 0 {
        1
    } else {
        lcm_of(common_denominator(s.drop_last()), s.last().1)
    }
}

/// The common denominator is positive and a multiple of every denominator.
pub proof fn lemma_common_denominator(s: Seq<(int, nat)>)
    requires
        forall|i: int| 0 <= i < s.len() ==> #[trigger] s[i].1 > 0,
    ensures
        common_denominator(s) > 0,
        forall|i: int| 0 <= i < s.len() ==> divides(#[trigger] s[i].1, common_denominator(s)),
    decreases s.len(),
{
    if s.len() > 0 {
        let t = s.drop_last();
        assert forall|i: int| 0 <= i < t.len() implies #[trigger] t[i].1 > 0 by {
            assert(t[i] == s[i]);
        }
        lemma_common_denominator(t);
        let a = common_denominator(t);
        let b = s.last().1;
        assert(b > 0);
        let g = gcd_spec(a, b);
        lemma_gcd_positive(a, b);
        lemma_gcd_divides(a, b);
        let ka = choose|k: nat| a == times(k, g);
        let kb = choose|k: nat| b == times(k, g);
        assert(a / g == ka) by (nonlinear_arith)
            requires
                a == ka * g,
                g > 0,
        ;
        let l = lcm_of(a, b);
        assert(l == ka * b);
        assert(l == times(ka, b));
        assert(l == times(kb, a)) by (nonlinear_arith)
            requires
                l == ka * b,
                a == ka * g,
                b == kb * g,
        ;
        assert(l > 0) by (nonlinear_arith)
            requires
                l == ka * b,
                a == ka * g,
                a > 0,
                b > 0,
                g > 0,
        ;
        assert forall|i: int| 0 <= i < s.len() implies divides(#[trigger] s[i].1, l) by {
            if i < t.len() {
                assert(t[i] == s[i]);
                lemma_divides_trans(s[i].1, a, l);
            }
        }
    }
}

/// The rational coefficients scaled by the common denominator.
pub open spec fn scaled_integers(s: Seq<(int, nat)>) -> Seq<int> {
    Seq::new(s.len(), |i: int| s[i].0 * ((common_denominator(s) / s[i].1) as int))
}

impl Polynomial {
    /// The primitive part: the coefficients divided by their content, negated when
    /// the leading coefficient is negative.
    pub fn primitive_part(&self) -> (r: Result<Self, AlgnumError>)
        ensures
            match r {
                Ok(p) => p@ == primitive_of(self@),
                Err(e) => integer_failure(e),
            },
    {
        proof {
            use_type_invariant(self);
        }
        if self.is_zero() {
            proof {
                assert(Seq::new(self@.len(), |i: int| 0int) =~= Seq::<int>::empty());
            }
            return Ok(Self::zero());
        }
        let ghost a = self@;
        let mut content = BigUint::zero();
        let mut index: usize = 0;
        while index < self.coefficients.len()
            invariant
                a == self@,
                index <= a.len(),
                self.coefficients@.len() == a.len(),
                content@ == content_of(a.subrange(0, index as int)),
            decreases a.len() - index,
        {
            let coefficient = &self.coefficients[index];
            proof {
                use_type_invariant(coefficient);
                use_type_invariant(&content);
                content.lemma_shape();
                assert(a.subrange(0, index + 1).drop_last() =~= a.subrange(0, index as int));
            }
            if !coefficient.is_zero() {
                let magnitude = coefficient.magnitude();
                proof {
                    use_type_invariant(magnitude);
                    magnitude.lemma_shape();
                }
                content = if content.is_zero() {
                    match magnitude.try_clone() {
                        Ok(v) => v,
                        Err(error) => return Err(integer_failure_of(error)),
                    }
                } else {
                    match content.gcd(magnitude) {
                        Ok(v) => v,
                        Err(error) => return Err(integer_failure_of(error)),
                    }
                };
            }
            index = index + 1;
        }
        proof {
            assert(a.subrange(0, a.len() as int) =~= a);
            lemma_content(a);
            assert(a[a.len() - 1] != 0);
            assert(content@ > 0);
        }
        let ghost c = content@;
        let divisor = BigInt::from_sign_magnitude(Sign::Positive, content);
        let negate = self.coefficients[self.coefficients.len() - 1].sign() == Sign::Negative;
        let mut coefficients: Vec<BigInt> = Vec::new();
        reserve_elements(
            &mut coefficients,
            self.coefficients.len(),
            AllocationResource::PolynomialCoefficients,
        )?;
        let mut index: usize = 0;
        while index < self.coefficients.len()
            invariant
                a == self@,
                self.coefficients@.len() == a.len(),
                index <= a.len(),
                c == content_of(a),
                c > 0,
                divisor@ == c,
                negate == (a[a.len() - 1] < 0),
                forall|j: int| 0 <= j < a.len() ==> divides(c, #[trigger] abs(a[j])),
                coefficients@.len() == index,
                forall|j: int| 0 <= j < index ==> #[trigger] coefficients@[j]@ == (if negate {
                    -(a[j] / (c as int))
                } else {
                    a[j] / (c as int)
                }),
            decreases a.len() - index,
        {
            proof {
                assert(divides(c, abs(a[index as int])));
                lemma_divides_mod(c, abs(a[index as int]));
            }
            let coefficient = &self.coefficients[index];
            proof {
                use_type_invariant(coefficient);
                coefficient.lemma_magnitude();
            }
            let reduced = match coefficient.exact_div(&divisor) {
                Ok(v) => v,
                Err(error) => return Err(integer_failure_of(error)),
            };
            proof {
                vstd::arithmetic::div_mod::lemma_fundamental_div_mod_converse(
                    a[index as int],
                    c as int,
                    reduced@,
                    0,
                );
                use_type_invariant(&reduced);
                reduced.lemma_magnitude();
            }
            let value = if negate {
                match reduced.negated() {
                    Ok(v) => v,
                    Err(error) => return Err(integer_failure_of(error)),
                }
            } else {
                reduced
            };
            let ghost before = coefficients@;
            coefficients.push(value);
            proof {
                assert forall|j: int| 0 <= j < index + 1 implies #[trigger] coefficients@[j]@ == (if negate {
                    -(a[j] / (c as int))
                } else {
                    a[j] / (c as int)
                }) by {
                    if j < index {
                        assert(coefficients@[j] == before[j]);
                    }
                }
            }
            index = index + 1;
        }
        proof {
            let expected = Seq::new(
                a.len(),
                |i: int|
                    if a[a.len() - 1] < 0 {
                        -(a[i] / (c as int))
                    } else {
                        a[i] / (c as int)
                    },
            );
            assert(int_values(coefficients@) =~= expected);
            // The leading coefficient stays nonzero.
            let top = a[a.len() - 1];
            lemma_divides_mod(c, abs(top));
            vstd::arithmetic::div_mod::lemma_fundamental_div_mod(top, c as int);
            assert(top / (c as int) != 0) by (nonlinear_arith)
                requires
                    top == (c as int) * (top / (c as int)) + top % (c as int),
                    top != 0,
                    top % (c as int) == 0 || abs(top) % c == 0,
                    c > 0,
            ;
        }
        Ok(Polynomial { coefficients })
    }
}

/// A failure of a conversion that divides exactly: an integer or allocation failure,
/// or a division that leaves a remainder.
pub open spec fn exact_failure(e: AlgnumError) -> bool {
    product_failure(e) || e == AlgnumError::Bigint(BigintError::NonExactDivision)
}

impl RationalPolynomial {
    /// The integer polynomial with its coefficients as rationals.
    pub fn from_integer(polynomial: &Polynomial) -> (r: Result<Self, AlgnumError>)
        ensures
            match r {
                Ok(v) => v@ == Seq::new(polynomial@.len(), |i: int| (polynomial@[i], 1nat)),
                Err(e) => rational_failure(e),
            },
    {
        polynomial.to_rational()
    }
}

impl RationalPolynomial {
    /// The primitive integer polynomial with the same roots: the coefficients scaled
    /// by the lcm of the denominators, then the primitive part.
    pub fn to_primitive_integer(&self) -> (r: Result<Polynomial, AlgnumError>)
        ensures
            match r {
                Ok(p) => p@ == primitive_of(trim_int(scaled_integers(self@))),
                Err(e) => integer_failure(e),
            },
    {
        let ghost v = self@;
        if self.is_zero() {
            proof {
                assert(scaled_integers(v) =~= Seq::<int>::empty());
                assert(primitive_of(Seq::<int>::empty()) =~= Seq::<int>::empty());
            }
            return Ok(Polynomial::zero());
        }
        let mut common = match BigUint::one() {
            Ok(v) => v,
            Err(error) => return Err(integer_failure_of(error)),
        };
        let mut index: usize = 0;
        proof {
            assert(v.subrange(0, 0) =~= Seq::<(int, nat)>::empty());
        }
        while index < self.coefficients.len()
            invariant
                v == self@,
                index <= self.coefficients@.len(),
                common@ == common_denominator(v.subrange(0, index as int)),
            decreases self.coefficients@.len() - index,
        {
            let ghost before = common@;
            common = match common.lcm(self.coefficients[index].denominator()) {
                Ok(v) => v,
                Err(error) => return Err(integer_failure_of(error)),
            };
            proof {
                assert(v.subrange(0, index + 1).drop_last() =~= v.subrange(0, index as int));
                assert(v.subrange(0, index + 1).last() == v[index as int]);
            }
            index = index + 1;
        }
        proof {
            assert(v.subrange(0, v.len() as int) =~= v);
        }
        let mut coefficients: Vec<BigInt> = Vec::new();
        reserve_elements(
            &mut coefficients,
            self.coefficients.len(),
            AllocationResource::PolynomialCoefficients,
        )?;
        confirm_reduced(self.coefficients.as_slice());
        let mut index: usize = 0;
        while index < self.coefficients.len()
            invariant
                v == self@,
                all_reduced(v),
                common@ == common_denominator(v),
                index <= self.coefficients@.len(),
                coefficients@.len() == index,
                forall|k: int| 0 <= k < index ==> #[trigger] coefficients@[k]@ == scaled_integers(v)[k],
            decreases self.coefficients@.len() - index,
        {
            let coefficient = &self.coefficients[index];
            proof {
                use_type_invariant(coefficient);
                assert forall|i: int| 0 <= i < v.len() implies #[trigger] v[i].1 > 0 by {
                    assert(is_reduced(v[i]));
                }
                lemma_common_denominator(v);
                assert(v[index as int] == coefficient@);
                lemma_divides_mod(coefficient@.1, common@);
            }
            let multiplier = match common.exact_div(coefficient.denominator()) {
                Ok(v) => v,
                Err(error) => return Err(integer_failure_of(error)),
            };
            let numerator = coefficient.numerator();
            let magnitude = match numerator.magnitude().mul(&multiplier) {
                Ok(v) => v,
                Err(error) => return Err(integer_failure_of(error)),
            };
            let value = BigInt::from_sign_magnitude(numerator.sign(), magnitude);
            proof {
                let n = numerator@;
                let q = multiplier@ as int;
                assert(v[index as int] == coefficient@);
                assert(q == (common_denominator(v) / coefficient@.1) as int);
                if n < 0 {
                    assert(-((-n) * q) == n * q) by (nonlinear_arith);
                } else if n == 0 {
                    assert(n * q == 0);
                    assert(abs(n) * q == 0);
                }
                assert(value@ == n * q);
            }
            coefficients.push(value);
            index = index + 1;
        }
        proof {
            assert(int_values(coefficients@) =~= scaled_integers(v));
        }
        Polynomial::from_coefficients(coefficients).primitive_part()
    }
}

impl CandidatePolynomial {
    /// The square-free part: the primitive polynomial divided by its gcd with its
    /// derivative, as a primitive integer polynomial.
    pub fn square_free(&self) -> (r: Result<SquareFreePolynomial, AlgnumError>)
        ensures
            match r {
                Ok(v) => v@ == square_free_of(self@) && v@.len() <= self@.len(),
                Err(e) => rational_failure(e) || (e == AlgnumError::Bigint(
                    BigintError::NonExactDivision,
                ) && gcd_leaves_remainder(self@)),
            },
    {
        proof {
            use_type_invariant(self);
        }
        let primitive = self.polynomial.primitive_part()?;
        let rational = primitive.to_rational()?;
        let derivative = rational.derivative_internal()?;
        let gcd = rational.gcd(&derivative)?;
        let (square_free, remainder) = rational.div_rem(&gcd)?;
        if !remainder.is_zero() {
            return Err(AlgnumError::Bigint(BigintError::NonExactDivision));
        }
        let polynomial = square_free.to_primitive_integer()?;
        proof {
            lemma_trim_int(scaled_integers(square_free@));
        }
        Ok(SquareFreePolynomial { polynomial })
    }
}

/// The integer coefficients of a rational sequence whose denominators are all one.
pub open spec fn integer_parts(s: Seq<(int, nat)>) -> Seq<int> {
    Seq::new(s.len(), |i: int| s[i].0)
}

/// Every denominator is one.
pub open spec fn all_integral(s: Seq<(int, nat)>) -> bool {
    forall|i: int| 0 <= i < s.len() ==> #[trigger] s[i].1 == 1
}

/// The rational coefficients of an integer sequence.
pub open spec fn as_rationals(s: Seq<int>) -> Seq<(int, nat)> {
    Seq::new(s.len(), |i: int| (s[i], 1nat))
}

impl RationalPolynomial {
    /// The integer polynomial with the same coefficients; refused unless every
    /// coefficient is an integer.
    pub fn to_integer_exact(&self) -> (r: Result<Polynomial, AlgnumError>)
        ensures
            match r {
                Ok(p) => all_integral(self@) && p@ == integer_parts(self@),
                Err(e) => integer_failure(e) || (e == AlgnumError::Bigint(
                    BigintError::NonExactDivision,
                ) && !all_integral(self@)),
            },
    {
        proof {
            use_type_invariant(self);
        }
        let mut coefficients: Vec<BigInt> = Vec::new();
        reserve_elements(
            &mut coefficients,
            self.coefficients.len(),
            AllocationResource::PolynomialCoefficients,
        )?;
        let mut index: usize = 0;
        while index < self.coefficients.len()
            invariant
                index <= self.coefficients@.len(),
                coefficients@.len() == index,
                forall|k: int| 0 <= k < index ==> #[trigger] self@[k].1 == 1,
                forall|k: int| 0 <= k < index ==> #[trigger] coefficients@[k]@ == self@[k].0,
            decreases self.coefficients@.len() - index,
        {
            let coefficient = &self.coefficients[index];
            proof {
                assert(self@[index as int] == coefficient@);
            }
            if coefficient.denominator().to_u32() != Some(1u32) {
                proof {
                    assert(self@[index as int].1 != 1);
                }
                return Err(AlgnumError::Bigint(BigintError::NonExactDivision));
            }
            let numerator = match coefficient.numerator().try_clone() {
                Ok(v) => v,
                Err(error) => return Err(integer_failure_of(error)),
            };
            coefficients.push(numerator);
            index = index + 1;
        }
        proof {
            assert(int_values(coefficients@) =~= integer_parts(self@));
            lemma_trim_trimmed(integer_parts(self@));
        }
        Ok(Polynomial::from_coefficients(coefficients))
    }
}

impl Polynomial {
    /// The quotient by `rhs` when the division over the rationals leaves no remainder
    /// and the quotient has integer coefficients; refused otherwise.
    pub fn exact_div(&self, rhs: &Self) -> (r: Result<Self, AlgnumError>)
        ensures
            rhs@.len() == 0 ==> r is Err,
            rhs@.len() > 0 ==> match r {
                Ok(q) => rat_div_rem(as_rationals(self@), as_rationals(rhs@)).1.len() == 0
                    && all_integral(rat_div_rem(as_rationals(self@), as_rationals(rhs@)).0) && q@
                    == integer_parts(rat_div_rem(as_rationals(self@), as_rationals(rhs@)).0)
                    && poly_mul(rhs@, q@) == self@,
                Err(e) => product_failure(e) || (e == AlgnumError::Bigint(
                    BigintError::NonExactDivision,
                ) && (rat_div_rem(as_rationals(self@), as_rationals(rhs@)).1.len() > 0
                    || !all_integral(rat_div_rem(as_rationals(self@), as_rationals(rhs@)).0))),
            },
    {
        let left = self.to_rational()?;
        let right = rhs.to_rational()?;
        proof {
            assert(left@ =~= as_rationals(self@));
            assert(right@ =~= as_rationals(rhs@));
        }
        let (quotient, remainder) = left.div_rem(&right)?;
        if !remainder.is_zero() {
            return Err(AlgnumError::Bigint(BigintError::NonExactDivision));
        }
        let result = quotient.to_integer_exact();
        proof {
            use_type_invariant(self);
            use_type_invariant(rhs);
            if result is Ok {
                crate::division::lemma_exact_division_reconstructs(self@, rhs@);
            }
        }
        result
    }

    /// Whether the division by `rhs` over the rationals leaves no remainder.
    pub fn is_exactly_divisible_by(&self, rhs: &Self) -> (r: Result<bool, AlgnumError>)
        ensures
            rhs@.len() == 0 ==> r is Err,
            rhs@.len() > 0 ==> match r {
                Ok(b) => b == (rat_div_rem(as_rationals(self@), as_rationals(rhs@)).1.len() == 0),
                Err(e) => rational_failure(e),
            },
    {
        let left = self.to_rational()?;
        let right = rhs.to_rational()?;
        proof {
            assert(left@ =~= as_rationals(self@));
            assert(right@ =~= as_rationals(rhs@));
        }
        let (_, remainder) = left.div_rem(&right)?;
        Ok(remainder.is_zero())
    }
}

} // verus!
