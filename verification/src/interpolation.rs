//! Lagrange interpolation of integer candidate factors through integer points.
use crate::algnum_error::{reserve_elements, resource_failure, AlgnumError, AllocationResource};
use crate::substitution::coefficient_count_overflow;
use crate::error::BigintError;
use crate::integer::{abs, BigInt};
use crate::natural::BigUint;
use crate::polynomial::{
    all_integral, as_rationals, coef, int_values, integer_failure, integer_parts, rat_add,
    rat_div, rat_mul, rat_values, rat_zero, trim_int, Polynomial,
};
use crate::rational::{is_reduced, lemma_reduced_form, lemma_reduced_unique, reduced_form, ReducedRational};
use vstd::prelude::*;

verus! {

/// `(x - root)` times the rational polynomial `v`, each coefficient reduced as
/// `ReducedRational` computes it: coefficient `i` is `v[i - 1] - root * v[i]`.
pub open spec fn linear_times_rat(v: Seq<(int, nat)>, root: int) -> Seq<(int, nat)> {
    Seq::new(
        v.len() + 1,
        |i: int|
            if 0 < i < v.len() {
                rat_add(v[i - 1], rat_mul(v[i], (-root, 1nat)))
            } else if i < v.len() {
                rat_mul(v[0], (-root, 1nat))
            } else if i > 0 {
                v[i - 1]
            } else {
                rat_zero()
            },
    )
}

/// `(x - root)` times the integer polynomial `b`.
pub open spec fn linear_times(b: Seq<int>, root: int) -> Seq<int> {
    Seq::new(b.len() + 1, |i: int| coef(b, i - 1) - root * coef(b, i))
}

/// The product of `(x - points[j])` over every `j < m` other than `index`.
pub open spec fn lagrange_basis(points: Seq<int>, index: int, m: nat) -> Seq<int>
    decreases m,
{
    if m == 0 {
        seq![1int]
    } else {
        let previous = lagrange_basis(points, index, (m - 1) as nat);
        if m - 1 == index {
            previous
        } else {
            linear_times(previous, points[m - 1])
        }
    }
}

/// The product of `points[index] - points[j]` over every `j < m` other than `index`.
pub open spec fn lagrange_denominator(points: Seq<int>, index: int, m: nat) -> int
    decreases m,
{
    if m == 0 {
        1
    } else {
        let previous = lagrange_denominator(points, index, (m - 1) as nat);
        if m - 1 == index {
            previous
        } else {
            previous * (points[index] - points[m - 1])
        }
    }
}

/// Coefficient `slot` of the Lagrange interpolant through `(points[i], values[i])`,
/// summed over the first `m` points in order and reduced after every step:
/// `values[i] / prod(points[i] - points[j])` times coefficient `slot` of
/// `prod(x - points[j])`, over `j != i`.
pub open spec fn lagrange_coefficient(points: Seq<int>, values: Seq<int>, slot: int, m: nat) -> (
    int,
    nat,
)
    decreases m,
{
    if m == 0 {
        rat_zero()
    } else {
        let i = m - 1;
        let scale = rat_div(
            (values[i], 1nat),
            (lagrange_denominator(points, i, points.len()), 1nat),
        );
        rat_add(
            lagrange_coefficient(points, values, slot, (m - 1) as nat),
            rat_mul((coef(lagrange_basis(points, i, points.len()), slot), 1nat), scale),
        )
    }
}

/// The coefficients of the Lagrange interpolant, lowest degree first.
pub open spec fn lagrange_coefficients(points: Seq<int>, values: Seq<int>) -> Seq<(int, nat)> {
    Seq::new(
        points.len(),
        |slot: int| lagrange_coefficient(points, values, slot, points.len()),
    )
}

/// No two points are equal.
pub open spec fn distinct_points(points: Seq<int>) -> bool {
    forall|i: int, j: int| 0 <= i < points.len() && 0 <= j < points.len() && i != j ==> points[i] != points[j]
}

/// An integer is its own reduced form.
pub proof fn lemma_reduced_integer(n: int)
    ensures
        reduced_form(n, 1) == (n, 1nat),
        is_reduced((n, 1nat)),
{
    let a = crate::integer::abs(n);
    assert(crate::natural::gcd_spec(a, 1) == 1) by {
        assert(a % 1 == 0);
        assert(crate::natural::gcd_spec(1, 0) == 1);
    }
}

/// Adding zero to a reduced rational, on either side, gives it back.
pub proof fn lemma_rat_add_zero(x: (int, nat))
    requires
        is_reduced(x),
    ensures
        rat_add(rat_zero(), x) == x,
        rat_add(x, rat_zero()) == x,
{
    assert(0 * x.1 + x.0 * 1 == x.0);
    assert(1 * x.1 == x.1);
    assert(x.0 * 1 + 0 * x.1 == x.0);
    assert(x.1 * 1 == x.1);
    lemma_reduced_form(x.0, x.1);
    lemma_reduced_unique(reduced_form(x.0, x.1), x);
}

/// Every reduced result of the rational operations is reduced.
pub proof fn lemma_rat_ops_reduced(p: (int, nat), q: (int, nat))
    requires
        p.1 > 0,
        q.1 > 0,
    ensures
        is_reduced(rat_add(p, q)),
        is_reduced(rat_mul(p, q)),
{
    assert(p.1 * q.1 > 0) by (nonlinear_arith)
        requires
            p.1 > 0,
            q.1 > 0,
    ;
    lemma_reduced_form(p.0 * q.1 + q.0 * p.1, p.1 * q.1);
    lemma_reduced_form(p.0 * q.0, p.1 * q.1);
}

/// On integers the rational operations are the integer ones.
pub proof fn lemma_rat_integer_ops(a: int, b: int)
    ensures
        rat_add((a, 1nat), (b, 1nat)) == (a + b, 1nat),
        rat_mul((a, 1nat), (b, 1nat)) == (a * b, 1nat),
{
    assert(a * 1 + b * 1 == a + b);
    assert(1nat * 1nat == 1nat);
    lemma_reduced_integer(a + b);
    lemma_reduced_integer(a * b);
}

/// Multiplying an integer polynomial by `(x - root)` as rationals gives the integer
/// product.
pub proof fn lemma_linear_times_integral(b: Seq<int>, root: int)
    ensures
        linear_times_rat(as_rationals(b), root) == as_rationals(linear_times(b, root)),
{
    let left = linear_times_rat(as_rationals(b), root);
    let right = as_rationals(linear_times(b, root));
    assert forall|i: int| 0 <= i < left.len() implies left[i] == right[i] by {
        if 0 < i < b.len() {
            lemma_rat_integer_ops(b[i], -root);
            lemma_rat_integer_ops(b[i - 1], b[i] * -root);
            assert(b[i] * -root == -(root * b[i])) by (nonlinear_arith);
            assert(coef(b, i - 1) == b[i - 1] && coef(b, i) == b[i]);
        } else if i < b.len() {
            lemma_rat_integer_ops(b[0], -root);
            assert(b[0] * -root == -(root * b[0])) by (nonlinear_arith);
            assert(coef(b, i - 1) == 0 && coef(b, i) == b[i]);
        } else if i > 0 {
            assert(root * 0 == 0);
            assert(coef(b, i - 1) == b[i - 1] && coef(b, i) == 0);
        } else {
            assert(root * 0 == 0);
            assert(coef(b, i - 1) == 0 && coef(b, i) == 0);
        }
    }
    assert(left =~= right);
}

/// The rational `value / 1`.
fn rational_integer(value: i32) -> (r: Result<ReducedRational, AlgnumError>)
    ensures
        match r {
            Ok(v) => v@ == (value as int, 1nat),
            Err(e) => integer_failure(e),
        },
{
    let integer = match BigInt::try_from(value) {
        Ok(v) => v,
        Err(error) => return Err(AlgnumError::Bigint(error)),
    };
    match ReducedRational::from_bigint(integer) {
        Ok(v) => Ok(v),
        Err(error) => Err(AlgnumError::Bigint(error)),
    }
}

/// `count` rational zeros.
fn zero_rationals(count: usize) -> (r: Result<Vec<ReducedRational>, AlgnumError>)
    ensures
        match r {
            Ok(v) => rat_values(v@) == Seq::new(count as nat, |i: int| rat_zero()),
            Err(e) => integer_failure(e),
        },
{
    let mut values: Vec<ReducedRational> = Vec::new();
    reserve_elements(&mut values, count, AllocationResource::RationalCoefficients)?;
    let mut index: usize = 0;
    while index < count
        invariant
            index <= count,
            rat_values(values@) == Seq::new(index as nat, |i: int| rat_zero()),
        decreases count - index,
    {
        let zero = rational_integer(0)?;
        let ghost before = rat_values(values@);
        values.push(zero);
        proof {
            assert(rat_values(values@) =~= before.push(rat_zero()));
        }
        index = index + 1;
        proof {
            assert(rat_values(values@) =~= Seq::new(index as nat, |i: int| rat_zero()));
        }
    }
    Ok(values)
}

/// `(x - root)` times `value`.
fn multiply_by_linear(value: &[ReducedRational], root: &BigInt) -> (r: Result<
    Vec<ReducedRational>,
    AlgnumError,
>)
    ensures
        match r {
            Ok(v) => rat_values(v@) == linear_times_rat(rat_values(value@), root@),
            Err(e) => resource_failure(e),
        },
{
    let count = match value.len().checked_add(1) {
        Some(c) => c,
        None => return Err(coefficient_count_overflow()),
    };
    let mut result = zero_rationals(count)?;
    let negated = match root.negated() {
        Ok(v) => v,
        Err(error) => return Err(AlgnumError::Bigint(error)),
    };
    let negative_root = match ReducedRational::from_bigint(negated) {
        Ok(v) => v,
        Err(error) => return Err(AlgnumError::Bigint(error)),
    };
    let ghost v = rat_values(value@);
    let ghost target = linear_times_rat(v, root@);
    proof {
        assert(result@.len() == rat_values(result@).len());
        assert forall|i: int| 0 <= i < count implies #[trigger] result@[i]@ == rat_zero() by {
            assert(rat_values(result@)[i] == result@[i]@);
        }
    }
    let mut index: usize = 0;
    while index < value.len()
        invariant
            index <= value@.len(),
            count == value@.len() + 1,
            v == rat_values(value@),
            target == linear_times_rat(v, root@),
            negative_root@ == (-root@, 1nat),
            result@.len() == count,
            forall|i: int| 0 <= i < index ==> #[trigger] result@[i]@ == target[i],
            result@[index as int]@ == (if index > 0 { v[index - 1] } else { rat_zero() }),
            forall|i: int| index < i < count ==> #[trigger] result@[i]@ == rat_zero(),
        decreases value@.len() - index,
    {
        let item = &value[index];
        proof {
            use_type_invariant(item);
        }
        let product = match item.mul(&negative_root) {
            Ok(p) => p,
            Err(error) => return Err(AlgnumError::Bigint(error)),
        };
        let updated = match result[index].add(&product) {
            Ok(p) => p,
            Err(error) => return Err(AlgnumError::Bigint(error)),
        };
        let following = match result[index + 1].add(item) {
            Ok(p) => p,
            Err(error) => return Err(AlgnumError::Bigint(error)),
        };
        proof {
            lemma_rat_ops_reduced(item@, negative_root@);
            lemma_rat_add_zero(item@);
            if index == 0 {
                lemma_rat_add_zero(product@);
            }
            assert(v[index as int] == item@);
        }
        result.set(index, updated);
        result.set(index + 1, following);
        index = index + 1;
    }
    Ok(result)
}

/// The length of a basis product: one more than the number of factors.
pub proof fn lemma_lagrange_basis_len(points: Seq<int>, index: int, m: nat)
    requires
        m <= points.len(),
    ensures
        lagrange_basis(points, index, m).len() == if 0 <= index < m {
            m as int
        } else {
            m + 1int
        },
    decreases m,
{
    if m > 0 {
        lemma_lagrange_basis_len(points, index, (m - 1) as nat);
    }
}

/// The denominator vanishes exactly when some other point among the first `m`
/// equals `points[index]`.
pub proof fn lemma_lagrange_denominator_zero(points: Seq<int>, index: int, m: nat)
    requires
        m <= points.len(),
        0 <= index < points.len(),
    ensures
        (lagrange_denominator(points, index, m) == 0) <==> (exists|j: int|
            0 <= j < m && j != index && #[trigger] points[j] == points[index]),
    decreases m,
{
    if m > 0 {
        lemma_lagrange_denominator_zero(points, index, (m - 1) as nat);
        let previous = lagrange_denominator(points, index, (m - 1) as nat);
        let j = m - 1;
        if j != index {
            let factor = points[index] - points[j];
            assert((previous * factor == 0) <==> (previous == 0 || factor == 0)) by (nonlinear_arith);
            if factor == 0 {
                assert(points[j] == points[index]);
            }
        }
        if exists|k: int| 0 <= k < m && k != index && #[trigger] points[k] == points[index] {
            let k = choose|k: int| 0 <= k < m && k != index && #[trigger] points[k] == points[index];
            if k < m - 1 {
                assert(exists|k2: int|
                    0 <= k2 < m - 1 && k2 != index && #[trigger] points[k2] == points[index]);
            }
        }
    }
}

/// The basis product of `points[index]` and its denominator.
fn lagrange_basis_for(points: &[BigInt], index: usize) -> (r: Result<
    (Vec<ReducedRational>, BigInt),
    AlgnumError,
>)
    requires
        index < points@.len(),
    ensures
        match r {
            Ok((basis, denominator)) => rat_values(basis@) == as_rationals(
                lagrange_basis(int_values(points@), index as int, points@.len()),
            ) && denominator@ == lagrange_denominator(
                int_values(points@),
                index as int,
                points@.len(),
            ),
            Err(e) => resource_failure(e),
        },
{
    let ghost pts = int_values(points@);
    let mut basis: Vec<ReducedRational> = Vec::new();
    reserve_elements(&mut basis, points.len(), AllocationResource::RationalCoefficients)?;
    let one = rational_integer(1)?;
    basis.push(one);
    let mut denominator = match BigInt::one() {
        Ok(v) => v,
        Err(error) => return Err(AlgnumError::Bigint(error)),
    };
    proof {
        assert(rat_values(basis@) =~= as_rationals(lagrange_basis(pts, index as int, 0)));
    }
    let mut other: usize = 0;
    while other < points.len()
        invariant
            index < points@.len(),
            other <= points@.len(),
            pts == int_values(points@),
            rat_values(basis@) == as_rationals(lagrange_basis(pts, index as int, other as nat)),
            denominator@ == lagrange_denominator(pts, index as int, other as nat),
        decreases points@.len() - other,
    {
        if other != index {
            proof {
                lemma_linear_times_integral(
                    lagrange_basis(pts, index as int, other as nat),
                    pts[other as int],
                );
            }
            basis = multiply_by_linear(&basis, &points[other])?;
            let difference = match points[index].sub(&points[other]) {
                Ok(v) => v,
                Err(error) => return Err(AlgnumError::Bigint(error)),
            };
            denominator = match denominator.mul(&difference) {
                Ok(v) => v,
                Err(error) => return Err(AlgnumError::Bigint(error)),
            };
        }
        other = other + 1;
    }
    Ok((basis, denominator))
}

/// Every digit picks an entry of its column.
pub open spec fn digits_in_range(columns: Seq<Vec<BigInt>>, digits: Seq<usize>) -> bool {
    forall|i: int| 0 <= i < digits.len() ==> #[trigger] digits[i] < columns[i]@.len()
}

/// The entries that the digits pick, one from each column.
pub open spec fn selected_values(columns: Seq<Vec<BigInt>>, digits: Seq<usize>) -> Seq<int> {
    Seq::new(digits.len(), |i: int| columns[i]@[digits[i] as int]@)
}

/// The polynomial of degree below the number of points that takes, at each point, the
/// value that the digits pick from that point's column, when its coefficients are
/// integers; `None` when they are not, when a digit is past its column, or when the
/// three slices differ in length. Two equal points leave a division by zero.
pub fn interpolate_integer_candidate(
    points: &[BigInt],
    columns: &[Vec<BigInt>],
    digits: &[usize],
) -> (r: Result<Option<Polynomial>, AlgnumError>)
    ensures
        !(points@.len() == columns@.len() && points@.len() == digits@.len()) ==> r == Ok::<
            Option<Polynomial>,
            AlgnumError,
        >(None),
        points@.len() == columns@.len() && points@.len() == digits@.len() ==> match r {
            Ok(Some(p)) => {
                let coefficients = lagrange_coefficients(
                    int_values(points@),
                    selected_values(columns@, digits@),
                );
                &&& digits_in_range(columns@, digits@)
                &&& distinct_points(int_values(points@))
                &&& all_integral(coefficients)
                &&& p@ == trim_int(integer_parts(coefficients))
            },
            Ok(None) => !digits_in_range(columns@, digits@) || (distinct_points(
                int_values(points@),
            ) && !all_integral(
                lagrange_coefficients(int_values(points@), selected_values(columns@, digits@)),
            )),
            Err(e) => resource_failure(e) || (e == AlgnumError::Bigint(BigintError::DivisionByZero)
                && !distinct_points(int_values(points@))),
        },
{
    if points.len() != columns.len() || points.len() != digits.len() {
        return Ok(None);
    }
    let count = points.len();
    let ghost pts = int_values(points@);
    let ghost vals = selected_values(columns@, digits@);
    let mut result = zero_rationals(count)?;
    proof {
        assert(result@.len() == rat_values(result@).len());
        assert forall|slot: int| 0 <= slot < count implies #[trigger] result@[slot]@
            == lagrange_coefficient(pts, vals, slot, 0) by {
            assert(rat_values(result@)[slot] == result@[slot]@);
        }
    }
    let mut index: usize = 0;
    while index < count
        invariant
            count == points@.len(),
            count == columns@.len(),
            count == digits@.len(),
            index <= count,
            pts == int_values(points@),
            vals == selected_values(columns@, digits@),
            result@.len() == count,
            forall|slot: int| 0 <= slot < count ==> #[trigger] result@[slot]@
                == lagrange_coefficient(pts, vals, slot, index as nat),
            forall|i: int| 0 <= i < index ==> #[trigger] digits@[i] < columns@[i]@.len(),
            forall|i: int, j: int|
                0 <= i < index && 0 <= j < count && i != j ==> #[trigger] pts[i] != #[trigger] pts[j],
        decreases count - index,
    {
        if digits[index] >= columns[index].len() {
            return Ok(None);
        }
        let value = &columns[index][digits[index]];
        let (basis, denominator) = lagrange_basis_for(points, index)?;
        proof {
            lemma_lagrange_basis_len(pts, index as int, count as nat);
            lemma_lagrange_denominator_zero(pts, index as int, count as nat);
            assert(basis@.len() == rat_values(basis@).len());
        }
        let numerator_value = match value.try_clone() {
            Ok(v) => v,
            Err(error) => return Err(AlgnumError::Bigint(error)),
        };
        let numerator = match ReducedRational::from_bigint(numerator_value) {
            Ok(v) => v,
            Err(error) => return Err(AlgnumError::Bigint(error)),
        };
        let divisor = match ReducedRational::from_bigint(denominator) {
            Ok(v) => v,
            Err(error) => return Err(AlgnumError::Bigint(error)),
        };
        let scale = match numerator.div(&divisor) {
            Ok(v) => v,
            Err(error) => {
                proof {
                    if error == BigintError::DivisionByZero && divisor@.0 == 0 {
                        let j = choose|j: int|
                            0 <= j < count && j != index && #[trigger] pts[j] == pts[index as int];
                        assert(!distinct_points(pts));
                    }
                }
                return Err(AlgnumError::Bigint(error));
            },
        };
        proof {
            assert(vals[index as int] == value@);
            assert forall|j: int| 0 <= j < count && j != index implies pts[index as int]
                != #[trigger] pts[j] by {
                if pts[j] == pts[index as int] {
                    assert(lagrange_denominator(pts, index as int, count as nat) == 0);
                }
            }
        }
        let mut slot: usize = 0;
        while slot < count
            invariant
                count == points@.len(),
                count == columns@.len(),
                count == digits@.len(),
                vals == selected_values(columns@, digits@),
                index < count,
                result@.len() == count,
                basis@.len() == count,
                rat_values(basis@) == as_rationals(lagrange_basis(pts, index as int, count as nat)),
                scale@ == rat_div(
                    (vals[index as int], 1nat),
                    (lagrange_denominator(pts, index as int, count as nat), 1nat),
                ),
                slot <= count,
                pts.len() == count,
                forall|s: int| 0 <= s < slot ==> #[trigger] result@[s]@
                    == lagrange_coefficient(pts, vals, s, (index + 1) as nat),
                forall|s: int| slot <= s < count ==> #[trigger] result@[s]@
                    == lagrange_coefficient(pts, vals, s, index as nat),
            decreases count - slot,
        {
            let term = match basis[slot].mul(&scale) {
                Ok(v) => v,
                Err(error) => return Err(AlgnumError::Bigint(error)),
            };
            let sum = match result[slot].add(&term) {
                Ok(v) => v,
                Err(error) => return Err(AlgnumError::Bigint(error)),
            };
            proof {
                assert(rat_values(basis@).len() == basis@.len());
                assert(rat_values(basis@)[slot as int] == basis@[slot as int]@);
                assert(coef(lagrange_basis(pts, index as int, count as nat), slot as int)
                    == lagrange_basis(pts, index as int, count as nat)[slot as int]);
            }
            result.set(slot, sum);
            slot = slot + 1;
        }
        index = index + 1;
    }
    let ghost coefficients = lagrange_coefficients(pts, vals);
    let mut integers: Vec<BigInt> = Vec::new();
    reserve_elements(&mut integers, count, AllocationResource::RationalCoefficients)?;
    let one = match BigUint::one() {
        Ok(v) => v,
        Err(error) => return Err(AlgnumError::Bigint(error)),
    };
    let mut slot: usize = 0;
    while slot < count
        invariant
            count == points@.len(),
            count == columns@.len(),
            count == digits@.len(),
            vals == selected_values(columns@, digits@),
            pts == int_values(points@),
            forall|i: int| 0 <= i < count ==> #[trigger] digits@[i] < columns@[i]@.len(),
            forall|i: int, j: int|
                0 <= i < count && 0 <= j < count && i != j ==> #[trigger] pts[i] != #[trigger] pts[j],
            one@ == 1,
            slot <= count,
            result@.len() == count,
            coefficients == lagrange_coefficients(pts, vals),
            pts.len() == count,
            forall|s: int| 0 <= s < count ==> #[trigger] result@[s]@ == coefficients[s],
            int_values(integers@) == integer_parts(coefficients).subrange(0, slot as int),
            forall|s: int| 0 <= s < slot ==> #[trigger] coefficients[s].1 == 1,
        decreases count - slot,
    {
        let coefficient = &result[slot];
        proof {
            use_type_invariant(coefficient);
        }
        if one.less_than(coefficient.denominator()) {
            return Ok(None);
        }
        let integer = match result[slot].numerator().try_clone() {
            Ok(v) => v,
            Err(error) => return Err(AlgnumError::Bigint(error)),
        };
        let ghost before = int_values(integers@);
        integers.push(integer);
        proof {
            assert(integer@ == coefficients[slot as int].0);
            assert(int_values(integers@) =~= before.push(coefficients[slot as int].0));
            assert(integer_parts(coefficients).subrange(0, slot + 1) =~= integer_parts(coefficients).subrange(0, slot as int).push(coefficients[slot as int].0));
        }
        slot = slot + 1;
    }
    proof {
        assert(integer_parts(coefficients).subrange(0, count as int) =~= integer_parts(coefficients));
        assert(digits_in_range(columns@, digits@));
    }
    Ok(Some(Polynomial::from_coefficients(integers)))
}

/// Raising the first coefficient by `k` raises the value by `k`.
proof fn lemma_eval_first_shift(d: Seq<int>, c: Seq<int>, k: int, x: int)
    requires
        d.len() == c.len(),
        d.len() > 0,
        d[0] == c[0] + k,
        forall|i: int| 1 <= i < d.len() ==> d[i] == c[i],
    ensures
        crate::polynomial::poly_eval(d, x) == crate::polynomial::poly_eval(c, x) + k,
{
    assert(d.drop_first() =~= c.drop_first());
}

/// The value of `(x - root) b` is `(x - root)` times the value of `b`.
pub proof fn lemma_eval_linear_times(b: Seq<int>, root: int, x: int)
    ensures
        crate::polynomial::poly_eval(linear_times(b, root), x) == (x - root) * crate::polynomial::poly_eval(b, x),
    decreases b.len(),
{
    let c = linear_times(b, root);
    if b.len() == 0 {
        assert(c.len() == 1);
        assert(c[0] == 0);
        assert(c.drop_first().len() == 0);
        assert(crate::polynomial::poly_eval(c.drop_first(), x) == 0);
        assert(crate::polynomial::poly_eval(b, x) == 0);
        assert(x * 0 == 0);
        assert((x - root) * 0 == 0);
    } else {
        let b1 = b.drop_first();
        lemma_eval_linear_times(b1, root, x);
        let c1 = linear_times(b1, root);
        let d = c.drop_first();
        assert(d.len() == c1.len());
        assert(d[0] == c1[0] + b[0]);
        assert forall|i: int| 1 <= i < d.len() implies d[i] == c1[i] by {
            assert(coef(b, i) == coef(b1, i - 1));
            assert(coef(b, i + 1) == coef(b1, i));
        }
        lemma_eval_first_shift(d, c1, b[0], x);
        let eb1 = crate::polynomial::poly_eval(b1, x);
        let ed = crate::polynomial::poly_eval(d, x);
        assert(coef(b, -1) == 0);
        assert(coef(b, 0) == b[0]);
        assert(c[0] == coef(b, -1) - root * coef(b, 0));
        assert(c[0] == 0 - root * b[0]);
        assert(crate::polynomial::poly_eval(c, x) == c[0] + x * ed);
        assert(crate::polynomial::poly_eval(b, x) == b[0] + x * eb1);
        assert((0 - root * b[0]) + x * (b[0] + (x - root) * eb1) == (x - root) * (b[0] + x * eb1))
            by (nonlinear_arith);
    }
}

/// A basis product at its own point is the denominator.
proof fn lemma_basis_at_own_point(points: Seq<int>, index: int, m: nat)
    requires
        m <= points.len(),
        0 <= index < points.len(),
    ensures
        crate::polynomial::poly_eval(lagrange_basis(points, index, m), points[index])
            == lagrange_denominator(points, index, m),
    decreases m,
{
    if m == 0 {
        let one = seq![1int];
        assert(one.drop_first().len() == 0);
        assert(crate::polynomial::poly_eval(one.drop_first(), points[index]) == 0);
        assert(points[index] * 0 == 0);
    } else {
        lemma_basis_at_own_point(points, index, (m - 1) as nat);
        if m - 1 != index {
            lemma_eval_linear_times(lagrange_basis(points, index, (m - 1) as nat), points[m - 1], points[index]);
            let a = crate::polynomial::poly_eval(lagrange_basis(points, index, (m - 1) as nat), points[index]);
            assert((points[index] - points[m - 1]) * a == a * (points[index] - points[m - 1])) by (nonlinear_arith);
        }
    }
}

/// A basis product vanishes at every other one of its points.
proof fn lemma_basis_at_other_point(points: Seq<int>, index: int, m: nat, k: int)
    requires
        m <= points.len(),
        0 <= k < m,
        k != index,
    ensures
        crate::polynomial::poly_eval(lagrange_basis(points, index, m), points[k]) == 0,
    decreases m,
{
    let previous = lagrange_basis(points, index, (m - 1) as nat);
    if k == m - 1 {
        lemma_eval_linear_times(previous, points[m - 1], points[k]);
        assert((points[k] - points[m - 1]) == 0);
        assert(0 * crate::polynomial::poly_eval(previous, points[k]) == 0);
    } else {
        lemma_basis_at_other_point(points, index, (m - 1) as nat, k);
        if m - 1 != index {
            lemma_eval_linear_times(previous, points[m - 1], points[k]);
            assert((points[k] - points[m - 1]) * 0 == 0);
        }
    }
}

/// The product of the first `m` Lagrange denominators.
pub open spec fn denominator_product(points: Seq<int>, m: nat) -> int
    decreases m,
{
    if m == 0 {
        1
    } else {
        denominator_product(points, (m - 1) as nat) * lagrange_denominator(points, m - 1, points.len())
    }
}

/// The product of the first `m` Lagrange denominators other than that of `index`.
pub open spec fn denominator_product_except(points: Seq<int>, index: int, m: nat) -> int
    decreases m,
{
    if m == 0 {
        1
    } else if m - 1 == index {
        denominator_product_except(points, index, (m - 1) as nat)
    } else {
        denominator_product_except(points, index, (m - 1) as nat) * lagrange_denominator(
            points,
            m - 1,
            points.len(),
        )
    }
}

/// Leaving one denominator out of the product and putting it back gives the product.
proof fn lemma_product_except(points: Seq<int>, index: int, m: nat)
    requires
        0 <= index,
    ensures
        index < m ==> lagrange_denominator(points, index, points.len()) * denominator_product_except(
            points,
            index,
            m,
        ) == denominator_product(points, m),
        index >= m ==> denominator_product_except(points, index, m) == denominator_product(points, m),
    decreases m,
{
    if m > 0 {
        lemma_product_except(points, index, (m - 1) as nat);
        let d = lagrange_denominator(points, index, points.len());
        let e = denominator_product_except(points, index, (m - 1) as nat);
        let f = lagrange_denominator(points, m - 1, points.len());
        let q = denominator_product(points, (m - 1) as nat);
        if index < m - 1 {
            assert(d * (e * f) == (d * e) * f) by (nonlinear_arith);
        } else if index == m - 1 {
            assert(e == q);
            assert(d == f);
            assert(d * e == q * f) by (nonlinear_arith)
                requires
                    e == q,
                    d == f,
            ;
        }
    }
}

/// With distinct points no denominator, and so no product of them, is zero.
proof fn lemma_product_nonzero(points: Seq<int>, m: nat)
    requires
        distinct_points(points),
        m <= points.len(),
    ensures
        denominator_product(points, m) != 0,
    decreases m,
{
    if m > 0 {
        lemma_product_nonzero(points, (m - 1) as nat);
        lemma_lagrange_denominator_zero(points, m - 1, points.len());
        let q = denominator_product(points, (m - 1) as nat);
        let f = lagrange_denominator(points, m - 1, points.len());
        assert(f != 0);
        assert(q * f != 0) by (nonlinear_arith)
            requires
                q != 0,
                f != 0,
        ;
    }
}

/// Coefficient `slot` of the interpolant through the first `m` points, scaled by the
/// product of all denominators: `sum values[i] * (product except i) * basis_i[slot]`.
pub open spec fn weighted_sum(points: Seq<int>, values: Seq<int>, slot: int, m: nat) -> int
    decreases m,
{
    if m == 0 {
        0
    } else {
        weighted_sum(points, values, slot, (m - 1) as nat) + values[m - 1] * denominator_product_except(
            points,
            m - 1,
            points.len(),
        ) * coef(lagrange_basis(points, m - 1, points.len()), slot)
    }
}

/// Each interpolation coefficient, as a rational, is the weighted sum over the product
/// of the denominators.
proof fn lemma_coefficient_value(points: Seq<int>, values: Seq<int>, slot: int, m: nat)
    requires
        distinct_points(points),
        values.len() == points.len(),
        m <= points.len(),
    ensures
        lagrange_coefficient(points, values, slot, m).1 > 0,
        lagrange_coefficient(points, values, slot, m).0 * denominator_product(points, points.len())
            == lagrange_coefficient(points, values, slot, m).1 * weighted_sum(points, values, slot, m),
    decreases m,
{
    let n = points.len();
    let p = denominator_product(points, n);
    if m == 0 {
        assert(rat_zero() == (0int, 1nat));
    } else {
        lemma_coefficient_value(points, values, slot, (m - 1) as nat);
        let i = m - 1;
        let l = lagrange_coefficient(points, values, slot, (m - 1) as nat);
        let w = weighted_sum(points, values, slot, (m - 1) as nat);
        let d = lagrange_denominator(points, i, n);
        let e = denominator_product_except(points, i, n);
        let v = values[i];
        let c = coef(lagrange_basis(points, i, n), slot);
        lemma_lagrange_denominator_zero(points, i, n);
        assert(d != 0);
        lemma_product_except(points, i, n);
        assert(d * e == p);
        let scale = rat_div((v, 1nat), (d, 1nat));
        let sn = if d < 0 {
            -(v * 1)
        } else {
            v * 1
        };
        let ad = abs(d);
        assert(ad > 0);
        crate::rational::lemma_reduced_form(sn, (1 * ad) as nat);
        assert(scale.1 > 0);
        assert(scale.0 * ad == sn * scale.1);
        assert(scale.0 * d == v * scale.1) by (nonlinear_arith)
            requires
                scale.0 * ad == sn * scale.1,
                d < 0 ==> ad == -d && sn == -v,
                d >= 0 ==> ad == d && sn == v,
        ;
        let t = rat_mul((c, 1nat), scale);
        crate::rational::lemma_reduced_form(c * scale.0, (1 * scale.1) as nat);
        assert(t.1 > 0);
        assert(t.0 * scale.1 == c * scale.0 * t.1);
        assert(t.0 * d == c * v * t.1) by (nonlinear_arith)
            requires
                t.0 * scale.1 == c * scale.0 * t.1,
                scale.0 * d == v * scale.1,
                scale.1 > 0,
        ;
        let num = l.0 * t.1 + t.0 * l.1;
        let den = l.1 * t.1;
        assert(den > 0) by (nonlinear_arith)
            requires
                l.1 > 0,
                t.1 > 0,
                den == l.1 * t.1,
        ;
        let r = lagrange_coefficient(points, values, slot, m);
        assert(r == rat_add(l, t));
        crate::rational::lemma_reduced_form(num, den as nat);
        assert(r.1 > 0);
        assert(r.0 * den == num * r.1);
        let l0 = l.0;
        let l1 = l.1 as int;
        let t0 = t.0;
        let t1 = t.1 as int;
        assert(l0 * t1 * p == l1 * w * t1) by (nonlinear_arith)
            requires
                l0 * p == l1 * w,
        ;
        assert(t0 * l1 * p == c * v * t1 * e * l1) by (nonlinear_arith)
            requires
                t0 * d == c * v * t1,
                p == d * e,
        ;
        assert(num * p == l0 * t1 * p + t0 * l1 * p) by (nonlinear_arith)
            requires
                num == l0 * t1 + t0 * l1,
        ;
        let g = v * e * c;
        assert(den * (w + g) == den * w + den * g) by (nonlinear_arith);
        assert(den * w == l1 * w * t1) by (nonlinear_arith)
            requires
                den == l1 * t1,
        ;
        assert(den * g == c * v * t1 * e * l1) by (nonlinear_arith)
            requires
                den == l1 * t1,
                g == v * e * c,
        ;
        assert(den * (w + v * e * c) == l1 * w * t1 + c * v * t1 * e * l1);
        assert(num * p == den * (w + v * e * c));
        assert(r.0 * p == r.1 * (w + v * e * c)) by (nonlinear_arith)
            requires
                r.0 * den == num * r.1,
                num * p == den * (w + v * e * c),
                den > 0,
        ;
    }
}

/// The terms up to `k` of a combination `a + w b` are the combination of the terms.
proof fn lemma_eval_terms_combination(s: Seq<int>, a: Seq<int>, b: Seq<int>, w: int, x: int, k: nat)
    requires
        forall|j: int| 0 <= j < k ==> #[trigger] coef(s, j) == coef(a, j) + w * coef(b, j),
    ensures
        crate::evaluation::eval_terms(s, x, k) == crate::evaluation::eval_terms(a, x, k) + w
            * crate::evaluation::eval_terms(b, x, k),
    decreases k,
{
    if k > 0 {
        let m = (k - 1) as nat;
        lemma_eval_terms_combination(s, a, b, w, x, m);
        assert(coef(s, m as int) == coef(a, m as int) + w * coef(b, m as int));
        let q = crate::evaluation::int_pow(x, m);
        let ea = crate::evaluation::eval_terms(a, x, m);
        let eb = crate::evaluation::eval_terms(b, x, m);
        let ca = coef(a, m as int);
        let cb = coef(b, m as int);
        assert(ea + w * eb + (ca + w * cb) * q == ea + ca * q + w * (eb + cb * q)) by (nonlinear_arith);
    }
}

/// The weighted combination of the basis products evaluated at `x`.
pub open spec fn weighted_values(points: Seq<int>, values: Seq<int>, x: int, m: nat) -> int
    decreases m,
{
    if m == 0 {
        0
    } else {
        weighted_values(points, values, x, (m - 1) as nat) + values[m - 1] * denominator_product_except(
            points,
            m - 1,
            points.len(),
        ) * crate::polynomial::poly_eval(lagrange_basis(points, m - 1, points.len()), x)
    }
}

/// The weighted sums, as coefficients, evaluate to the weighted combination of values.
proof fn lemma_weighted_evaluation(points: Seq<int>, values: Seq<int>, x: int, m: nat)
    requires
        m <= points.len(),
    ensures
        crate::evaluation::eval_terms(
            Seq::new(points.len(), |slot: int| weighted_sum(points, values, slot, m)),
            x,
            points.len(),
        ) == weighted_values(points, values, x, m),
    decreases m,
{
    let n = points.len();
    let s = Seq::new(n, |slot: int| weighted_sum(points, values, slot, m));
    if m == 0 {
        let z = Seq::<int>::empty();
        assert forall|j: int| 0 <= j < n implies #[trigger] coef(s, j) == coef(z, j) + 0 * coef(z, j) by {}
        lemma_eval_terms_combination(s, z, z, 0, x, n);
        crate::evaluation::lemma_poly_eval_terms(z, x);
        lemma_eval_terms_zero(z, x, n);
    } else {
        lemma_weighted_evaluation(points, values, x, (m - 1) as nat);
        let a = Seq::new(n, |slot: int| weighted_sum(points, values, slot, (m - 1) as nat));
        let b = lagrange_basis(points, m - 1, n);
        let w = values[m - 1] * denominator_product_except(points, m - 1, n);
        assert forall|j: int| 0 <= j < n implies #[trigger] coef(s, j) == coef(a, j) + w * coef(b, j) by {
            assert(values[m - 1] * denominator_product_except(points, m - 1, n) * coef(b, j) == w * coef(b, j));
        }
        lemma_eval_terms_combination(s, a, b, w, x, n);
        lemma_lagrange_basis_len(points, m - 1, n);
        crate::evaluation::lemma_poly_eval_terms(b, x);
    }
}

/// The terms of the empty sequence add up to zero.
proof fn lemma_eval_terms_zero(z: Seq<int>, x: int, k: nat)
    requires
        z.len() == 0,
    ensures
        crate::evaluation::eval_terms(z, x, k) == 0,
    decreases k,
{
    if k > 0 {
        lemma_eval_terms_zero(z, x, (k - 1) as nat);
    }
}

/// At point `k` only the own basis product survives.
proof fn lemma_weighted_values_at_point(points: Seq<int>, values: Seq<int>, k: int, m: nat)
    requires
        m <= points.len(),
        0 <= k < points.len(),
    ensures
        weighted_values(points, values, points[k], m) == if k < m {
            values[k] * denominator_product_except(points, k, points.len()) * lagrange_denominator(
                points,
                k,
                points.len(),
            )
        } else {
            0
        },
    decreases m,
{
    if m > 0 {
        lemma_weighted_values_at_point(points, values, k, (m - 1) as nat);
        let i = m - 1;
        let f = values[i] * denominator_product_except(points, i, points.len());
        if i == k {
            lemma_basis_at_own_point(points, k, points.len());
        } else {
            lemma_basis_at_other_point(points, i, points.len(), k);
            assert(f * 0 == 0);
        }
    }
}

/// Lagrange interpolation: the interpolant through distinct points, when its
/// coefficients are integers, takes at every point `points[k]` the value `values[k]`.
pub proof fn lemma_interpolant_passes_through_points(points: Seq<int>, values: Seq<int>, k: int)
    requires
        points.len() == values.len(),
        distinct_points(points),
        all_integral(lagrange_coefficients(points, values)),
        0 <= k < points.len(),
    ensures
        crate::polynomial::poly_eval(integer_parts(lagrange_coefficients(points, values)), points[k])
            == values[k],
{
    let n = points.len();
    let cs = lagrange_coefficients(points, values);
    let z = integer_parts(cs);
    let p = denominator_product(points, n);
    let x = points[k];
    lemma_product_nonzero(points, n);
    let s = Seq::new(n, |slot: int| weighted_sum(points, values, slot, n));
    assert forall|j: int| 0 <= j < n implies #[trigger] coef(s, j) == coef(Seq::<int>::empty(), j) + p * coef(z, j) by {
        lemma_coefficient_value(points, values, j, n);
        assert(cs[j] == lagrange_coefficient(points, values, j, n));
        assert(cs[j].1 == 1);
        assert(z[j] == cs[j].0);
        let ws = weighted_sum(points, values, j, n);
        assert(cs[j].0 * p == 1 * ws);
        assert(coef(s, j) == ws);
        assert(coef(z, j) == z[j]);
        assert(coef(Seq::<int>::empty(), j) == 0);
        assert(p * z[j] == z[j] * p) by (nonlinear_arith);
    }
    lemma_eval_terms_combination(s, Seq::<int>::empty(), z, p, x, n);
    lemma_eval_terms_zero(Seq::<int>::empty(), x, n);
    lemma_weighted_evaluation(points, values, x, n);
    lemma_weighted_values_at_point(points, values, k, n);
    lemma_product_except(points, k, n);
    crate::evaluation::lemma_poly_eval_terms(z, x);
    let e = crate::polynomial::poly_eval(z, x);
    let dk = lagrange_denominator(points, k, n);
    let ek = denominator_product_except(points, k, n);
    assert(p * e == values[k] * ek * dk);
    assert(dk * ek == p);
    assert(p * e == p * values[k]) by (nonlinear_arith)
        requires
            p * e == values[k] * ek * dk,
            dk * ek == p,
    ;
    assert(e == values[k]) by (nonlinear_arith)
        requires
            p * e == p * values[k],
            p != 0,
    ;
}

} // verus!
