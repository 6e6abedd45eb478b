//! Factorization of square-free integer polynomials by Kronecker's method: candidate
//! factors are interpolated through divisors of the values at integer points, and the
//! least accepted candidate of the least degree splits the polynomial.
use crate::algnum_error::{
    allocation_total_to_usize, reserve_elements, resource_failure, AlgnumError, AllocationResource,
};
use crate::error::BigintError;
use crate::evaluation::{
    lemma_poly_mul_associative, lemma_poly_mul_commutative, lemma_poly_mul_len, lemma_poly_mul_one,
    lemma_poly_mul_trimmed,
};
use crate::natural::BigUint;
use crate::factor::{
    candidate_degree_allowed, cartesian_start, column_sizes, divisor_columns, divisor_precedes,
    is_last_growable, kronecker_points, lemma_poly_order_properties, next_cartesian_digits,
    nonroot_points, poly_order, polynomial_order, select_minimum_candidate,
};
use crate::integer::abs;
use crate::integer::BigInt;
use crate::interpolation::{
    digits_in_range, distinct_points, interpolate_integer_candidate, lagrange_coefficients,
    selected_values,
};
use crate::polynomial::{
    all_integral, as_rationals, int_values, integer_parts, is_trimmed, poly_eval, poly_mul,
    primitive_of, rat_div_rem, trim_int, Polynomial, SquareFreePolynomial,
};
use vstd::prelude::*;

verus! {

/// Every digit is below its column size, one digit per column.
pub open spec fn tuple_in_range(t: Seq<usize>, sizes: Seq<nat>) -> bool {
    &&& t.len() == sizes.len()
    &&& forall|i: int| 0 <= i < t.len() ==> #[trigger] t[i] < sizes[i]
}

/// The position of a tuple in the product order, the last digit changing first.
pub open spec fn tuple_rank(t: Seq<usize>, sizes: Seq<nat>) -> int
    decreases t.len(),
{
    if t.len() == 0 || sizes.len() == 0 {
        0
    } else {
        tuple_rank(t.drop_last(), sizes.drop_last()) * sizes.last() + t.last()
    }
}

/// The number of tuples: the product of the column sizes.
pub open spec fn tuple_total(sizes: Seq<nat>) -> int
    decreases sizes.len(),
{
    if sizes.len() == 0 {
        1
    } else {
        tuple_total(sizes.drop_last()) * sizes.last()
    }
}

/// A tuple in range has a rank below the number of tuples.
pub proof fn lemma_rank_bound(t: Seq<usize>, sizes: Seq<nat>)
    requires
        tuple_in_range(t, sizes),
    ensures
        0 <= tuple_rank(t, sizes) < tuple_total(sizes),
    decreases t.len(),
{
    if t.len() > 0 {
        let t0 = t.drop_last();
        let s0 = sizes.drop_last();
        assert(tuple_in_range(t0, s0)) by {
            assert forall|i: int| 0 <= i < t0.len() implies #[trigger] t0[i] < s0[i] by {
                assert(t[i] < sizes[i]);
            }
        }
        lemma_rank_bound(t0, s0);
        let r = tuple_rank(t0, s0);
        let total = tuple_total(s0);
        let s = sizes.last() as int;
        let d = t.last() as int;
        assert(t[t.len() - 1] < sizes[t.len() - 1]);
        assert(0 <= r * s + d < total * s) by (nonlinear_arith)
            requires
                0 <= r < total,
                0 <= d < s,
        ;
    }
}

/// Ranks tell tuples in range apart.
pub proof fn lemma_rank_injective(t: Seq<usize>, u: Seq<usize>, sizes: Seq<nat>)
    requires
        tuple_in_range(t, sizes),
        tuple_in_range(u, sizes),
        tuple_rank(t, sizes) == tuple_rank(u, sizes),
    ensures
        t == u,
    decreases t.len(),
{
    if t.len() > 0 {
        let t0 = t.drop_last();
        let u0 = u.drop_last();
        let s0 = sizes.drop_last();
        assert(tuple_in_range(t0, s0)) by {
            assert forall|i: int| 0 <= i < t0.len() implies #[trigger] t0[i] < s0[i] by {
                assert(t[i] < sizes[i]);
            }
        }
        assert(tuple_in_range(u0, s0)) by {
            assert forall|i: int| 0 <= i < u0.len() implies #[trigger] u0[i] < s0[i] by {
                assert(u[i] < sizes[i]);
            }
        }
        lemma_rank_bound(t0, s0);
        lemma_rank_bound(u0, s0);
        let s = sizes.last() as int;
        let a = tuple_rank(t0, s0);
        let b = tuple_rank(u0, s0);
        let c = t.last() as int;
        let d = u.last() as int;
        assert(t[t.len() - 1] < sizes[t.len() - 1]);
        assert(u[u.len() - 1] < sizes[u.len() - 1]);
        assert(a == b && c == d) by (nonlinear_arith)
            requires
                a * s + c == b * s + d,
                0 <= c < s,
                0 <= d < s,
                a >= 0,
                b >= 0,
        ;
        lemma_rank_injective(t0, u0, s0);
        assert(t =~= u0.push(c as usize));
        assert(u =~= u0.push(d as usize));
    }
}

/// The tuple of largest digits has the last rank.
pub proof fn lemma_rank_last(t: Seq<usize>, sizes: Seq<nat>)
    requires
        t.len() == sizes.len(),
        forall|i: int| 0 <= i < t.len() ==> #[trigger] t[i] + 1 == sizes[i],
    ensures
        tuple_rank(t, sizes) == tuple_total(sizes) - 1,
    decreases t.len(),
{
    if t.len() > 0 {
        let t0 = t.drop_last();
        let s0 = sizes.drop_last();
        assert forall|i: int| 0 <= i < t0.len() implies #[trigger] t0[i] + 1 == s0[i] by {
            assert(t[i] + 1 == sizes[i]);
        }
        lemma_rank_last(t0, s0);
        let r = tuple_rank(t0, s0);
        let s = sizes.last() as int;
        assert(t[t.len() - 1] + 1 == sizes[t.len() - 1]);
        assert((r + 1) * s == r * s + s) by (nonlinear_arith);
    }
}

/// The next tuple after `t`: position `pos` grows by one, the positions before it
/// stay, those after it, all at their largest digit in `t`, return to zero.
pub open spec fn is_next_tuple(t: Seq<usize>, next: Seq<usize>, sizes: Seq<nat>, pos: int) -> bool {
    &&& next.len() == t.len()
    &&& 0 <= pos < t.len()
    &&& t[pos] + 1 < sizes[pos]
    &&& forall|q: int| pos < q < t.len() ==> #[trigger] t[q] + 1 >= sizes[q]
    &&& forall|q: int| 0 <= q < pos ==> #[trigger] next[q] == t[q]
    &&& next[pos] == t[pos] + 1
    &&& forall|q: int| pos < q < next.len() ==> #[trigger] next[q] == 0
}

/// The next tuple has the next rank.
pub proof fn lemma_rank_next(t: Seq<usize>, next: Seq<usize>, sizes: Seq<nat>, pos: int)
    requires
        tuple_in_range(t, sizes),
        is_next_tuple(t, next, sizes, pos),
    ensures
        tuple_rank(next, sizes) == tuple_rank(t, sizes) + 1,
        tuple_in_range(next, sizes),
    decreases t.len(),
{
    let n = t.len();
    let t0 = t.drop_last();
    let u0 = next.drop_last();
    let s0 = sizes.drop_last();
    let s = sizes.last() as int;
    assert(t[n - 1] < sizes[n - 1]);
    assert(tuple_in_range(t0, s0)) by {
        assert forall|i: int| 0 <= i < t0.len() implies #[trigger] t0[i] < s0[i] by {
            assert(t[i] < sizes[i]);
        }
    }
    if pos == n - 1 {
        assert(t0 =~= u0) by {
            assert forall|i: int| 0 <= i < t0.len() implies t0[i] == u0[i] by {
                assert(next[i] == t[i]);
            }
        }
        assert forall|i: int| 0 <= i < next.len() implies #[trigger] next[i] < sizes[i] by {
            if i < pos {
                assert(next[i] == t[i]);
                assert(t[i] < sizes[i]);
            }
        }
    } else {
        assert(t[n - 1] + 1 >= sizes[n - 1]);
        assert(next[n - 1] == 0);
        assert(is_next_tuple(t0, u0, s0, pos)) by {
            assert forall|q: int| pos < q < t0.len() implies #[trigger] t0[q] + 1 >= s0[q] by {
                assert(t[q] + 1 >= sizes[q]);
            }
            assert forall|q: int| 0 <= q < pos implies #[trigger] u0[q] == t0[q] by {
                assert(next[q] == t[q]);
            }
            assert forall|q: int| pos < q < u0.len() implies #[trigger] u0[q] == 0 by {
                assert(next[q] == 0);
            }
        }
        lemma_rank_next(t0, u0, s0, pos);
        let r = tuple_rank(t0, s0);
        assert((r + 1) * s + 0 == r * s + (s - 1) + 1) by (nonlinear_arith);
        assert forall|i: int| 0 <= i < next.len() implies #[trigger] next[i] < sizes[i] by {
            if i < n - 1 {
                assert(u0[i] == next[i]);
                assert(u0[i] < s0[i]);
            }
        }
    }
}

/// The candidate factor that the digits pick, if it is accepted: the primitive part of
/// the interpolant through the points and the picked divisors, when that interpolant has
/// integer coefficients, the primitive part has a degree from one to `degree`, and it
/// divides `p` over the rationals with no remainder.
pub open spec fn candidate_at(
    p: Seq<int>,
    degree: nat,
    points: Seq<int>,
    columns: Seq<Vec<BigInt>>,
    digits: Seq<usize>,
) -> Option<Seq<int>> {
    let coefficients = lagrange_coefficients(points, selected_values(columns, digits));
    if !all_integral(coefficients) {
        None
    } else {
        let f = primitive_of(trim_int(integer_parts(coefficients)));
        if 2 <= f.len() && f.len() <= degree + 1 && rat_div_rem(as_rationals(p), as_rationals(f)).1.len()
            == 0 {
            Some(f)
        } else {
            None
        }
    }
}

/// The candidate that `digits` pick from `columns`, through `points`, if it is accepted.
fn candidate_for(
    polynomial: &Polynomial,
    degree: usize,
    points: &[BigInt],
    columns: &[Vec<BigInt>],
    digits: &[usize],
) -> (r: Result<Option<Polynomial>, AlgnumError>)
    requires
        points@.len() == columns@.len(),
        points@.len() == digits@.len(),
        digits_in_range(columns@, digits@),
        distinct_points(int_values(points@)),
    ensures
        match r {
            Ok(found) => match candidate_at(
                polynomial@,
                degree as nat,
                int_values(points@),
                columns@,
                digits@,
            ) {
                Some(f) => found matches Some(c) && c@ == f,
                None => found is None,
            },
            Err(e) => resource_failure(e),
        },
{
    let interpolated = match interpolate_integer_candidate(points, columns, digits)? {
        Some(value) => value,
        None => return Ok(None),
    };
    let candidate = interpolated.primitive_part()?;
    let candidate_degree = match candidate.degree() {
        Some(value) => value,
        None => return Ok(None),
    };
    if !candidate_degree_allowed(candidate_degree, degree) {
        return Ok(None);
    }
    if polynomial.is_exactly_divisible_by(&candidate)? {
        Ok(Some(candidate))
    } else {
        Ok(None)
    }
}

/// The sequences that `poly_order` puts level are equal.
pub proof fn lemma_poly_order_zero(a: Seq<int>, b: Seq<int>)
    requires
        poly_order(a, b) == 0,
    ensures
        a == b,
    decreases a.len(),
{
    if a.len() > 0 && b.len() > 0 {
        lemma_poly_order_zero(a.drop_last(), b.drop_last());
        assert(a =~= a.drop_last().push(a.last()));
        assert(b =~= b.drop_last().push(b.last()));
    }
}

/// Whether some polynomial of `list` equals `value`.
fn contains_polynomial(list: &Vec<Polynomial>, value: &Polynomial) -> (r: bool)
    ensures
        r == exists|i: int| 0 <= i < list@.len() && #[trigger] list@[i]@ == value@,
{
    let mut index: usize = 0;
    while index < list.len()
        invariant
            index <= list@.len(),
            forall|i: int| 0 <= i < index ==> #[trigger] list@[i]@ != value@,
        decreases list@.len() - index,
    {
        if polynomial_order(&list[index], value) == 0 {
            proof {
                lemma_poly_order_zero(list@[index as int]@, value@);
            }
            return true;
        }
        proof {
            crate::factor::lemma_poly_order_properties(value@, value@, value@);
        }
        index = index + 1;
    }
    false
}

/// When no position can grow, every digit is at its largest.
proof fn lemma_no_growable(d: Seq<usize>, sizes: Seq<nat>)
    requires
        d.len() == sizes.len(),
        forall|pos: int| !is_last_growable(d, sizes, pos),
    ensures
        forall|q: int| 0 <= q < d.len() ==> #[trigger] d[q] + 1 >= sizes[q],
{
    assert forall|q: int| 0 <= q < d.len() implies #[trigger] d[q] + 1 >= sizes[q] by {
        if d[q] + 1 < sizes[q] {
            lemma_find_growable(d, sizes, d.len() - 1, q);
        }
    }
}

/// Scanning down from `i`, past digits at their largest, finds a position that can grow.
proof fn lemma_find_growable(d: Seq<usize>, sizes: Seq<nat>, i: int, q: int)
    requires
        d.len() == sizes.len(),
        0 <= q <= i < d.len(),
        d[q] + 1 < sizes[q],
        forall|j: int| i < j < d.len() ==> #[trigger] d[j] + 1 >= sizes[j],
    ensures
        exists|pos: int| is_last_growable(d, sizes, pos),
    decreases i,
{
    if d[i] + 1 < sizes[i] {
        assert(is_last_growable(d, sizes, i));
    } else {
        lemma_find_growable(d, sizes, i - 1, q);
    }
}

/// Nonroot points are distinct.
pub proof fn lemma_nonroot_distinct(p: Seq<int>, k: nat)
    ensures
        forall|i: int, j: int|
            0 <= i < nonroot_points(p, k).len() && 0 <= j < nonroot_points(p, k).len() && i != j
                ==> nonroot_points(p, k)[i] != nonroot_points(p, k)[j],
        forall|i: int| 0 <= i < nonroot_points(p, k).len() ==> exists|m: nat|
            m < k && #[trigger] nonroot_points(p, k)[i] == crate::factor::integer_point_value(m),
    decreases k,
{
    if k > 0 {
        lemma_nonroot_distinct(p, (k - 1) as nat);
        let before = nonroot_points(p, (k - 1) as nat);
        let x = crate::factor::integer_point_value((k - 1) as nat);
        assert forall|i: int| 0 <= i < before.len() implies before[i] != x by {
            let m = choose|m: nat| m < k - 1 && #[trigger] before[i] == crate::factor::integer_point_value(m);
            crate::factor::lemma_integer_point_injective(m, (k - 1) as nat);
        }
    }
}

/// A column of the signed divisors of `value`, in order.
pub open spec fn divisor_column(column: Seq<int>, value: int) -> bool {
    &&& forall|i: int, j: int| 0 <= i < j < column.len() ==> divisor_precedes(column[i], column[j])
    &&& forall|x: int| column.contains(x) <==> (abs(value) > 0 && x != 0 && abs(value) % abs(x) == 0)
}

/// The inputs of Kronecker's search for factors of degree at most `degree`: the first
/// `degree + 1` integer points of the sequence `0, 1, -1, 2, -2, ...` at which `p` does
/// not vanish, and for each the signed divisors of the value of `p` there.
pub open spec fn kronecker_inputs(
    p: Seq<int>,
    degree: nat,
    points: Seq<int>,
    columns: Seq<Vec<BigInt>>,
) -> bool {
    &&& points.len() == degree + 1
    &&& exists|k: nat| points == nonroot_points(p, k)
    &&& columns.len() == degree + 1
    &&& forall|i: int|
        0 <= i < columns.len() ==> divisor_column(int_values(#[trigger] columns[i]@), poly_eval(p, points[i]))
}

/// `f` is accepted for some tuple of digits, one from each column.
pub open spec fn accepted_by(
    p: Seq<int>,
    degree: nat,
    points: Seq<int>,
    columns: Seq<Vec<BigInt>>,
    f: Seq<int>,
) -> bool {
    exists|t: Seq<usize>|
        tuple_in_range(t, column_sizes(columns)) && #[trigger] candidate_at(p, degree, points, columns, t)
            == Some(f)
}

/// Every accepted candidate for a tuple whose rank is below `bound` is in `list`.
pub open spec fn covers_below(
    list: Seq<Polynomial>,
    p: Seq<int>,
    degree: nat,
    points: Seq<int>,
    columns: Seq<Vec<BigInt>>,
    bound: int,
) -> bool {
    forall|t: Seq<usize>|
        tuple_in_range(t, column_sizes(columns)) && tuple_rank(t, column_sizes(columns)) < bound
            ==> match #[trigger] candidate_at(p, degree, points, columns, t) {
            Some(f) => exists|i: int| 0 <= i < list.len() && #[trigger] list[i]@ == f,
            None => true,
        }
}

/// `list` holds each candidate accepted for some tuple of digits exactly once.
pub open spec fn lists_accepted(
    list: Seq<Polynomial>,
    p: Seq<int>,
    degree: nat,
    points: Seq<int>,
    columns: Seq<Vec<BigInt>>,
) -> bool {
    &&& forall|f: Seq<int>|
        (exists|i: int| 0 <= i < list.len() && #[trigger] list[i]@ == f) <==> accepted_by(
            p,
            degree,
            points,
            columns,
            f,
        )
    &&& forall|i: int, j: int| 0 <= i < j < list.len() ==> #[trigger] list[i]@ != #[trigger] list[j]@
}

/// The distinct accepted candidates of degree one to `degree`: Kronecker's search
/// over every tuple of signed divisors of the values of `polynomial` at its first
/// `degree + 1` nonroot integer points, in the product order, the first occurrence of
/// each candidate kept.
pub fn accepted_candidates(polynomial: &Polynomial, degree: usize) -> (r: Result<
    Vec<Polynomial>,
    AlgnumError,
>)
    requires
        polynomial@.len() > 0,
    ensures
        match r {
            Ok(list) => exists|points: Seq<int>, columns: Seq<Vec<BigInt>>|
                #[trigger] kronecker_inputs(polynomial@, degree as nat, points, columns)
                    && lists_accepted(list@, polynomial@, degree as nat, points, columns),
            Err(e) => resource_failure(e),
        },
{
    let (points, values) = kronecker_points(polynomial, degree)?;
    let columns = divisor_columns(&values)?;
    let ghost p = polynomial@;
    let ghost pts = int_values(points@);
    let ghost sizes = column_sizes(columns@);
    proof {
        let k = choose|k: nat| pts == nonroot_points(p, k);
        lemma_nonroot_distinct(p, k);
        assert(distinct_points(pts));
        assert forall|i: int| 0 <= i < columns@.len() implies divisor_column(
            int_values(#[trigger] columns@[i]@),
            poly_eval(p, pts[i]),
        ) by {
            assert(values@[i]@ == poly_eval(p, points@[i]@));
        }
        assert(kronecker_inputs(p, degree as nat, pts, columns@));
    }
    let mut candidates: Vec<Polynomial> = Vec::new();
    let mut digits = match cartesian_start(&columns)? {
        Some(start) => start,
        None => {
            proof {
                assert forall|f: Seq<int>| !accepted_by(p, degree as nat, pts, columns@, f) by {
                    if accepted_by(p, degree as nat, pts, columns@, f) {
                        let t = choose|t: Seq<usize>|
                            tuple_in_range(t, sizes) && #[trigger] candidate_at(
                                p,
                                degree as nat,
                                pts,
                                columns@,
                                t,
                            ) == Some(f);
                        let i = choose|i: int| 0 <= i < columns@.len() && #[trigger] columns@[i]@.len() == 0;
                        assert(t[i] < sizes[i]);
                    }
                }
                assert(lists_accepted(candidates@, polynomial@, degree as nat, pts, columns@));
            }
            return Ok(candidates);
        },
    };
    proof {
        assert(tuple_in_range(digits@, sizes));
        assert(tuple_rank(digits@, sizes) == 0) by {
            lemma_rank_zero(digits@, sizes);
        }
        assert forall|t: Seq<usize>|
            tuple_in_range(t, sizes) && tuple_rank(t, sizes) < 0 implies match #[trigger] candidate_at(
            p,
            degree as nat,
            pts,
            columns@,
            t,
        ) {
            Some(f) => exists|i: int| 0 <= i < candidates@.len() && #[trigger] candidates@[i]@ == f,
            None => true,
        } by {
            lemma_rank_bound(t, sizes);
        }
    }
    let mut more = true;
    while more
        invariant
            p == polynomial@,
            pts == int_values(points@),
            sizes == column_sizes(columns@),
            points@.len() == columns@.len(),
            distinct_points(pts),
            kronecker_inputs(p, degree as nat, pts, columns@),
            more ==> tuple_in_range(digits@, sizes),
            more ==> covers_below(candidates@, p, degree as nat, pts, columns@, tuple_rank(digits@, sizes)),
            !more ==> covers_below(candidates@, p, degree as nat, pts, columns@, tuple_total(sizes)),
            forall|i: int| 0 <= i < candidates@.len() ==> accepted_by(p, degree as nat, pts, columns@, #[trigger] candidates@[i]@),
            forall|i: int, j: int|
                0 <= i < j < candidates@.len() ==> #[trigger] candidates@[i]@ != #[trigger] candidates@[j]@,
        decreases (if more {
            tuple_total(sizes) - tuple_rank(digits@, sizes)
        } else {
            0
        }),
    {
        proof {
            lemma_rank_bound(digits@, sizes);
        }
        let ghost current = digits@;
        let found = candidate_for(polynomial, degree, &points, &columns, &digits)?;
        let ghost before = candidates@;
        match found {
            Some(candidate) => {
                if !contains_polynomial(&candidates, &candidate) {
                    candidates.push(candidate);
                    proof {
                        assert(candidates@[before.len() as int]@ == candidate_at(
                            p,
                            degree as nat,
                            pts,
                            columns@,
                            current,
                        )->0);
                    }
                }
            },
            None => {},
        }
        proof {
            assert forall|i: int| 0 <= i < before.len() implies candidates@[i] == before[i] by {}
            assert(match candidate_at(p, degree as nat, pts, columns@, current) {
                Some(f) => exists|i: int| 0 <= i < candidates@.len() && #[trigger] candidates@[i]@ == f,
                None => true,
            });
            assert forall|i: int| 0 <= i < candidates@.len() implies accepted_by(
                p,
                degree as nat,
                pts,
                columns@,
                #[trigger] candidates@[i]@,
            ) by {
                if i == before.len() {
                    assert(tuple_in_range(current, sizes));
                }
            }
        }
        more = next_cartesian_digits(&mut digits, &columns);
        proof {
            let bound = tuple_rank(current, sizes);
            assert forall|t: Seq<usize>|
                tuple_in_range(t, sizes) && tuple_rank(t, sizes) <= bound implies match #[trigger] candidate_at(
                p,
                degree as nat,
                pts,
                columns@,
                t,
            ) {
                Some(f) => exists|i: int| 0 <= i < candidates@.len() && #[trigger] candidates@[i]@ == f,
                None => true,
            } by {
                if tuple_rank(t, sizes) == bound {
                    lemma_rank_injective(t, current, sizes);
                } else {
                    match candidate_at(p, degree as nat, pts, columns@, t) {
                        Some(f) => {
                            let i = choose|i: int| 0 <= i < before.len() && #[trigger] before[i]@ == f;
                            assert(candidates@[i] == before[i]);
                        },
                        None => {},
                    }
                }
            }
            if more {
                let pos = choose|pos: int|
                    is_last_growable(current, sizes, pos) && (forall|q: int|
                        0 <= q < pos ==> #[trigger] digits@[q] == current[q]) && digits@[pos]
                        == current[pos] + 1 && (forall|q: int|
                        pos < q < digits@.len() ==> #[trigger] digits@[q] == 0);
                assert(is_next_tuple(current, digits@, sizes, pos));
                lemma_rank_next(current, digits@, sizes, pos);
            } else {
                lemma_no_growable(current, sizes);
                assert forall|q: int| 0 <= q < current.len() implies #[trigger] current[q] + 1 == sizes[q] by {
                    assert(current[q] < sizes[q]);
                }
                lemma_rank_last(current, sizes);
                assert forall|t: Seq<usize>|
                    tuple_in_range(t, sizes) && tuple_rank(t, sizes) < tuple_total(sizes) implies match #[trigger] candidate_at(
                    p,
                    degree as nat,
                    pts,
                    columns@,
                    t,
                ) {
                    Some(f) => exists|i: int| 0 <= i < candidates@.len() && #[trigger] candidates@[i]@ == f,
                    None => true,
                } by {
                    assert(tuple_rank(t, sizes) <= bound);
                }
            }
        }
    }
    proof {
        assert forall|f: Seq<int>|
            (exists|i: int| 0 <= i < candidates@.len() && #[trigger] candidates@[i]@ == f) <==> accepted_by(
                p,
                degree as nat,
                pts,
                columns@,
                f,
            ) by {
            if accepted_by(p, degree as nat, pts, columns@, f) {
                let t = choose|t: Seq<usize>|
                    tuple_in_range(t, sizes) && #[trigger] candidate_at(p, degree as nat, pts, columns@, t)
                        == Some(f);
                lemma_rank_bound(t, sizes);
            }
        }
        assert((forall|f: Seq<int>|
            (exists|i: int| 0 <= i < candidates@.len() && #[trigger] candidates@[i]@ == f)
                <==> accepted_by(p, degree as nat, pts, columns@, f)));
        assert(lists_accepted(candidates@, polynomial@, degree as nat, pts, columns@));
    }
    Ok(candidates)
}

/// The tuple of zeros has rank zero.
proof fn lemma_rank_zero(t: Seq<usize>, sizes: Seq<nat>)
    requires
        forall|i: int| 0 <= i < t.len() ==> #[trigger] t[i] == 0,
    ensures
        tuple_rank(t, sizes) == 0,
    decreases t.len(),
{
    if t.len() > 0 && sizes.len() > 0 {
        lemma_rank_zero(t.drop_last(), sizes.drop_last());
        assert(0 * sizes.last() == 0);
    }
}

/// No candidate of degree one to `degree` is accepted.
pub open spec fn no_candidates(p: Seq<int>, degree: nat) -> bool {
    exists|points: Seq<int>, columns: Seq<Vec<BigInt>>|
        #[trigger] kronecker_inputs(p, degree, points, columns) && forall|g: Seq<int>|
            !accepted_by(p, degree, points, columns, g)
}

/// `f` is the least accepted candidate of degree one to `degree`, in the order of
/// coefficients from the highest degree down.
pub open spec fn least_candidate(p: Seq<int>, degree: nat, f: Seq<int>) -> bool {
    exists|points: Seq<int>, columns: Seq<Vec<BigInt>>|
        #[trigger] kronecker_inputs(p, degree, points, columns) && accepted_by(p, degree, points, columns, f)
            && forall|g: Seq<int>| accepted_by(p, degree, points, columns, g) ==> poly_order(f, g) <= 0
}

/// The factor that splits `polynomial`: for the least degree `d` from one to half the
/// degree of `polynomial` with an accepted candidate of degree one to `d`, the least
/// such candidate; `None` when there is none, as for a zero or constant polynomial.
pub fn selected_factor(polynomial: &Polynomial) -> (r: Result<Option<Polynomial>, AlgnumError>)
    ensures
        match r {
            Ok(Some(f)) => exists|d: nat|
                1 <= d <= (polynomial@.len() - 1) / 2 && #[trigger] least_candidate(polynomial@, d, f@)
                    && forall|e: nat| 1 <= e < d ==> #[trigger] no_candidates(polynomial@, e),
            Ok(None) => forall|e: nat|
                1 <= e <= (polynomial@.len() - 1) / 2 ==> #[trigger] no_candidates(polynomial@, e),
            Err(e) => resource_failure(e),
        },
{
    let degree = match polynomial.degree() {
        Some(value) => value,
        None => return Ok(None),
    };
    let ghost p = polynomial@;
    let mut candidate_degree: usize = 1;
    while candidate_degree <= degree / 2
        invariant
            p == polynomial@,
            p.len() == degree + 1,
            1 <= candidate_degree <= degree / 2 + 1,
            forall|e: nat| 1 <= e < candidate_degree ==> #[trigger] no_candidates(p, e),
        decreases degree / 2 + 1 - candidate_degree,
    {
        let candidates = accepted_candidates(polynomial, candidate_degree)?;
        let ghost all = candidates@;
        let selected = select_minimum_candidate(candidates);
        let ghost d = candidate_degree as nat;
        match selected {
            Some(f) => {
                proof {
                    let (points, columns) = choose|points: Seq<int>, columns: Seq<Vec<BigInt>>|
                        #[trigger] kronecker_inputs(p, d, points, columns) && lists_accepted(
                            all,
                            p,
                            d,
                            points,
                            columns,
                        );
                    let i = choose|i: int|
                        0 <= i < all.len() && all[i] == f && (forall|j: int|
                            0 <= j < all.len() ==> poly_order(#[trigger] all[j]@, f@) >= 0) && (forall|j: int|
                            0 <= j < i ==> poly_order(#[trigger] all[j]@, f@) > 0);
                    assert(accepted_by(p, d, points, columns, f@)) by {
                        assert(all[i]@ == f@);
                    }
                    assert forall|g: Seq<int>| accepted_by(p, d, points, columns, g) implies poly_order(
                        f@,
                        g,
                    ) <= 0 by {
                        let j = choose|j: int| 0 <= j < all.len() && #[trigger] all[j]@ == g;
                        lemma_poly_order_properties(all[j]@, f@, f@);
                    }
                    assert(least_candidate(p, d, f@));
                }
                return Ok(Some(f));
            },
            None => {
                proof {
                    let (points, columns) = choose|points: Seq<int>, columns: Seq<Vec<BigInt>>|
                        #[trigger] kronecker_inputs(p, d, points, columns) && lists_accepted(
                            all,
                            p,
                            d,
                            points,
                            columns,
                        );
                    assert(all.len() == 0);
                    assert forall|g: Seq<int>| !accepted_by(p, d, points, columns, g) by {
                        if accepted_by(p, d, points, columns, g) {
                            let j = choose|j: int| 0 <= j < all.len() && #[trigger] all[j]@ == g;
                        }
                    }
                    assert(no_candidates(p, d));
                }
            },
        }
        candidate_degree = candidate_degree + 1;
    }
    Ok(None)
}

/// The product of the polynomials in order, starting from one.
pub open spec fn product_of(s: Seq<Seq<int>>) -> Seq<int>
    decreases s.len(),
{
    if s.len() == 0 {
        seq![1int]
    } else {
        poly_mul(product_of(s.drop_last()), s.last())
    }
}

/// A product is trimmed.
pub proof fn lemma_product_trimmed(s: Seq<Seq<int>>)
    ensures
        is_trimmed(product_of(s)),
{
    if s.len() > 0 {
        lemma_poly_mul_trimmed(product_of(s.drop_last()), s.last());
    }
}

/// The product of two runs is the product of their products.
pub proof fn lemma_product_concat(a: Seq<Seq<int>>, b: Seq<Seq<int>>)
    ensures
        product_of(a + b) == poly_mul(product_of(a), product_of(b)),
    decreases b.len(),
{
    lemma_product_trimmed(a);
    if b.len() == 0 {
        assert(a + b =~= a);
        lemma_poly_mul_one(product_of(a));
    } else {
        let b0 = b.drop_last();
        lemma_product_concat(a, b0);
        assert((a + b).drop_last() =~= a + b0);
        assert((a + b).last() == b.last());
        lemma_poly_mul_associative(product_of(a), product_of(b0), b.last());
    }
}

/// Inserting a polynomial anywhere multiplies the product by it.
pub proof fn lemma_product_insert(s: Seq<Seq<int>>, i: int, x: Seq<int>)
    requires
        0 <= i <= s.len(),
    ensures
        product_of(s.insert(i, x)) == poly_mul(product_of(s), x),
{
    let a = s.subrange(0, i);
    let b = s.subrange(i, s.len() as int);
    assert(s.insert(i, x) =~= a.push(x) + b);
    assert(s =~= a + b);
    lemma_product_concat(a.push(x), b);
    lemma_product_concat(a, b);
    assert(a.push(x).drop_last() =~= a);
    let (pa, pb) = (product_of(a), product_of(b));
    lemma_poly_mul_associative(pa, x, pb);
    lemma_poly_mul_commutative(x, pb);
    lemma_poly_mul_associative(pa, pb, x);
}

/// Kronecker's search finds no factor of `p` of any degree from one to half its degree.
pub open spec fn no_kronecker_factor(p: Seq<int>) -> bool {
    forall|e: nat| 1 <= e <= (p.len() - 1) / 2 ==> #[trigger] no_candidates(p, e)
}

/// The least candidate has a degree from one to the degree it was sought at.
proof fn lemma_least_candidate_len(p: Seq<int>, d: nat, f: Seq<int>)
    requires
        least_candidate(p, d, f),
    ensures
        2 <= f.len() <= d + 1,
        rat_div_rem(as_rationals(p), as_rationals(f)).1.len() == 0,
        exists|g: Seq<int>| f == #[trigger] primitive_of(g),
{
    let (points, columns) = choose|points: Seq<int>, columns: Seq<Vec<BigInt>>|
        #[trigger] kronecker_inputs(p, d, points, columns) && accepted_by(p, d, points, columns, f)
            && forall|g: Seq<int>| accepted_by(p, d, points, columns, g) ==> poly_order(f, g) <= 0;
    let t = choose|t: Seq<usize>|
        tuple_in_range(t, column_sizes(columns)) && #[trigger] candidate_at(p, d, points, columns, t)
            == Some(f);
    let coefficients = lagrange_coefficients(points, selected_values(columns, t));
    assert(f == primitive_of(trim_int(integer_parts(coefficients))));
}

/// A factor of a square-free polynomial in which Kronecker's search finds no factor.
#[derive(Debug, Eq, PartialEq)]
pub struct IrreduciblePolynomial {
    polynomial: Polynomial,
}

impl View for IrreduciblePolynomial {
    type V = Seq<int>;

    closed spec fn view(&self) -> Seq<int> {
        self.polynomial@
    }
}

impl IrreduciblePolynomial {
    /// The polynomial.
    pub fn polynomial(&self) -> (r: &Polynomial)
        ensures
            r@ == self@,
    {
        &self.polynomial
    }

    /// An independent copy.
    pub fn try_clone(&self) -> (r: Result<Self, AlgnumError>)
        ensures
            match r {
                Ok(v) => v@ == self@,
                Err(e) => resource_failure(e),
            },
    {
        Ok(Self { polynomial: self.polynomial.try_clone()? })
    }

    /// The factor `polynomial`.
    pub(crate) fn from_polynomial(polynomial: Polynomial) -> (r: Self)
        ensures
            r@ == polynomial@,
    {
        Self { polynomial }
    }
}

/// The polynomials of a list of factors.
pub open spec fn factor_views(s: Seq<IrreduciblePolynomial>) -> Seq<Seq<int>> {
    Seq::new(s.len(), |i: int| s[i]@)
}

/// A failure of the factorization: for want of resources, or an exact division that
/// leaves a quotient with a fractional coefficient, which takes a counterexample to
/// Gauss's lemma.
pub open spec fn factorization_failure(e: AlgnumError) -> bool {
    resource_failure(e) || (e == AlgnumError::Bigint(BigintError::NonExactDivision) && exists|
        q: Seq<int>,
        f: Seq<int>,
    | #[trigger] gauss_counterexample(q, f))
}

/// A counterexample to Gauss's lemma: a primitive part `f` that divides `q` over the
/// rationals with a quotient that is not integral. None exists; the factorization fails
/// with an inexact division only on one.
pub open spec fn gauss_counterexample(q: Seq<int>, f: Seq<int>) -> bool {
    &&& exists|g: Seq<int>| f == #[trigger] primitive_of(g)
    &&& f.len() >= 1
    &&& rat_div_rem(as_rationals(q), as_rationals(f)).1.len() == 0
    &&& !all_integral(rat_div_rem(as_rationals(q), as_rationals(f)).0)
}

/// Splits by the selected factor and the exact quotient, the factor first, until no
/// factor is found, and appends the pieces to `output`.
fn factor_recursive(polynomial: &Polynomial, output: &mut Vec<IrreduciblePolynomial>) -> (r: Result<
    (),
    AlgnumError,
>)
    ensures
        old(output)@.len() <= final(output)@.len(),
        final(output)@.subrange(0, old(output)@.len() as int) == old(output)@,
        r is Ok ==> product_of(
            factor_views(final(output)@.subrange(old(output)@.len() as int, final(output)@.len() as int)),
        ) == polynomial@,
        r is Ok ==> forall|i: int|
            old(output)@.len() <= i < final(output)@.len() ==> no_kronecker_factor(
                #[trigger] final(output)@[i]@,
            ),
        r matches Err(e) ==> factorization_failure(e),
    decreases polynomial@.len(),
{
    proof {
        use_type_invariant(polynomial);
    }
    let ghost start = output@;
    let factor = match selected_factor(polynomial)? {
        Some(f) => f,
        None => {
            let copy = polynomial.try_clone()?;
            output.push(IrreduciblePolynomial::from_polynomial(copy));
            proof {
                let added = output@.subrange(start.len() as int, output@.len() as int);
                assert(factor_views(added) =~= seq![polynomial@]);
                assert(seq![polynomial@].drop_last() =~= Seq::<Seq<int>>::empty());
                assert(product_of(Seq::<Seq<int>>::empty()) == seq![1int]);
                assert(product_of(seq![polynomial@]) == poly_mul(seq![1int], polynomial@));
                lemma_poly_mul_one(polynomial@);
                assert(output@.subrange(0, start.len() as int) =~= start);
                assert(no_kronecker_factor(polynomial@));
            }
            return Ok(());
        },
    };
    let quotient = match polynomial.exact_div(&factor) {
        Ok(q) => q,
        Err(error) => {
            proof {
                let d = choose|d: nat|
                    1 <= d <= (polynomial@.len() - 1) / 2 && #[trigger] least_candidate(
                        polynomial@,
                        d,
                        factor@,
                    ) && forall|e: nat| 1 <= e < d ==> #[trigger] no_candidates(polynomial@, e);
                lemma_least_candidate_len(polynomial@, d, factor@);
                if error == AlgnumError::Bigint(BigintError::NonExactDivision) && !resource_failure(error) {
                    assert(gauss_counterexample(polynomial@, factor@));
                }
            }
            return Err(error);
        },
    };
    proof {
        use_type_invariant(&factor);
        use_type_invariant(&quotient);
        let d = choose|d: nat|
            1 <= d <= (polynomial@.len() - 1) / 2 && #[trigger] least_candidate(polynomial@, d, factor@)
                && forall|e: nat| 1 <= e < d ==> #[trigger] no_candidates(polynomial@, e);
        lemma_least_candidate_len(polynomial@, d, factor@);
        if quotient@.len() == 0 {
            assert(poly_mul(factor@, quotient@) =~= Seq::<int>::empty());
        }
        lemma_poly_mul_len(factor@, quotient@);
    }
    factor_recursive(&factor, output)?;
    let ghost middle = output@;
    factor_recursive(&quotient, output)?;
    proof {
        let first = factor_views(middle.subrange(start.len() as int, middle.len() as int));
        let second = factor_views(output@.subrange(middle.len() as int, output@.len() as int));
        assert(output@.subrange(0, middle.len() as int) == middle);
        assert(factor_views(output@.subrange(start.len() as int, output@.len() as int)) =~= first
            + second) by {
            assert forall|j: int| 0 <= j < middle.len() implies #[trigger] output@[j] == middle[j] by {
                assert(output@.subrange(0, middle.len() as int)[j] == middle[j]);
            }
        }
        lemma_product_concat(first, second);
        assert(output@.subrange(0, start.len() as int) =~= start) by {
            assert forall|i: int| 0 <= i < start.len() implies output@[i] == start[i] by {
                assert(output@.subrange(0, middle.len() as int)[i] == middle[i]);
                assert(middle.subrange(0, start.len() as int)[i] == start[i]);
            }
        }
        assert forall|i: int| start.len() <= i < output@.len() implies no_kronecker_factor(
            #[trigger] output@[i]@,
        ) by {
            if i < middle.len() {
                assert(output@.subrange(0, middle.len() as int)[i] == middle[i]);
            }
        }
    }
    Ok(())
}

/// The number of factors that the splitting finds: one for a polynomial that it does
/// not split, else the counts of the selected factor and of the quotient together.
fn count_irreducible(polynomial: &Polynomial) -> (r: Result<BigUint, AlgnumError>)
    ensures
        match r {
            Ok(count) => count@ >= 1,
            Err(e) => factorization_failure(e),
        },
    decreases polynomial@.len(),
{
    proof {
        use_type_invariant(polynomial);
    }
    let factor = match selected_factor(polynomial)? {
        Some(f) => f,
        None => {
            return match BigUint::one() {
                Ok(one) => Ok(one),
                Err(error) => Err(AlgnumError::Bigint(error)),
            };
        },
    };
    let quotient = match polynomial.exact_div(&factor) {
        Ok(q) => q,
        Err(error) => {
            proof {
                let d = choose|d: nat|
                    1 <= d <= (polynomial@.len() - 1) / 2 && #[trigger] least_candidate(
                        polynomial@,
                        d,
                        factor@,
                    ) && forall|e: nat| 1 <= e < d ==> #[trigger] no_candidates(polynomial@, e);
                lemma_least_candidate_len(polynomial@, d, factor@);
                if error == AlgnumError::Bigint(BigintError::NonExactDivision) && !resource_failure(error) {
                    assert(gauss_counterexample(polynomial@, factor@));
                }
            }
            return Err(error);
        },
    };
    proof {
        use_type_invariant(&factor);
        use_type_invariant(&quotient);
        let d = choose|d: nat|
            1 <= d <= (polynomial@.len() - 1) / 2 && #[trigger] least_candidate(polynomial@, d, factor@)
                && forall|e: nat| 1 <= e < d ==> #[trigger] no_candidates(polynomial@, e);
        lemma_least_candidate_len(polynomial@, d, factor@);
        if quotient@.len() == 0 {
            assert(poly_mul(factor@, quotient@) =~= Seq::<int>::empty());
        }
        lemma_poly_mul_len(factor@, quotient@);
    }
    let left = count_irreducible(&factor)?;
    let right = count_irreducible(&quotient)?;
    match left.add(&right) {
        Ok(total) => Ok(total),
        Err(error) => Err(AlgnumError::Bigint(error)),
    }
}

/// The order of factors: by degree, then by coefficients from the highest degree down.
pub open spec fn factor_order(a: Seq<int>, b: Seq<int>) -> int {
    if a.len() < b.len() {
        -1
    } else if a.len() > b.len() {
        1
    } else {
        poly_order(a, b)
    }
}

/// The order of factors is a total preorder.
proof fn lemma_factor_order_properties(a: Seq<int>, b: Seq<int>, c: Seq<int>)
    ensures
        factor_order(a, b) == -factor_order(b, a),
        factor_order(a, b) <= 0 && factor_order(b, c) <= 0 ==> factor_order(a, c) <= 0,
{
    lemma_poly_order_properties(a, b, c);
    lemma_poly_order_properties(c, b, a);
    lemma_poly_order_properties(a, c, b);
}

/// Compares two factors by degree, then by coefficients from the highest degree down.
pub fn compare_irreducible(left: &IrreduciblePolynomial, right: &IrreduciblePolynomial) -> (r:
    core::cmp::Ordering)
    ensures
        r == (if factor_order(left@, right@) < 0 {
            core::cmp::Ordering::Less
        } else if factor_order(left@, right@) == 0 {
            core::cmp::Ordering::Equal
        } else {
            core::cmp::Ordering::Greater
        }),
{
    let left_len = left.polynomial().coefficients().len();
    let right_len = right.polynomial().coefficients().len();
    if left_len < right_len {
        core::cmp::Ordering::Less
    } else if left_len > right_len {
        core::cmp::Ordering::Greater
    } else {
        crate::factor::compare_polynomials(left.polynomial(), right.polynomial())
    }
}

/// Whether `left` comes strictly before `right` in the order of factors.
fn factor_less(left: &IrreduciblePolynomial, right: &IrreduciblePolynomial) -> (r: bool)
    ensures
        r == (factor_order(left@, right@) < 0),
{
    let left_len = left.polynomial().coefficients().len();
    let right_len = right.polynomial().coefficients().len();
    if left_len != right_len {
        left_len < right_len
    } else {
        polynomial_order(left.polynomial(), right.polynomial()) < 0
    }
}

/// Sorted by the order of factors.
pub open spec fn factors_sorted(s: Seq<Seq<int>>) -> bool {
    forall|i: int, j: int| 0 <= i < j < s.len() ==> factor_order(#[trigger] s[i], #[trigger] s[j]) <= 0
}

/// Sorts the factors by the order of factors, in place, by insertion.
fn sort_factors(factors: &mut Vec<IrreduciblePolynomial>)
    requires
        forall|i: int| 0 <= i < old(factors)@.len() ==> no_kronecker_factor(#[trigger] old(factors)@[i]@),
    ensures
        factors_sorted(factor_views(final(factors)@)),
        product_of(factor_views(final(factors)@)) == product_of(factor_views(old(factors)@)),
        forall|i: int| 0 <= i < final(factors)@.len() ==> no_kronecker_factor(#[trigger] final(factors)@[i]@),
{
    let ghost input = factor_views(factors@);
    let mut index: usize = 0;
    while index < factors.len()
        invariant
            index <= factors@.len(),
            factors@.len() == input.len(),
            factors_sorted(factor_views(factors@.subrange(0, index as int))),
            product_of(factor_views(factors@.subrange(0, index as int))) == product_of(input.subrange(0, index as int)),
            forall|i: int| index <= i < factors@.len() ==> #[trigger] factors@[i]@ == input[i],
            forall|i: int| 0 <= i < factors@.len() ==> no_kronecker_factor(#[trigger] factors@[i]@),
        decreases factors@.len() - index,
    {
        let ghost before = factors@;
        let ghost prefix = factor_views(before.subrange(0, index as int));
        let item = factors.remove(index);
        let mut position: usize = 0;
        while position < index
            invariant
                index < before.len(),
                position <= index,
                factors@ == before.remove(index as int),
                prefix == factor_views(before.subrange(0, index as int)),
                item@ == before[index as int]@,
                forall|k: int| 0 <= k < position ==> factor_order(#[trigger] prefix[k], item@) <= 0,
            ensures
                position <= index,
                factors@ == before.remove(index as int),
                forall|k: int| 0 <= k < position ==> factor_order(#[trigger] prefix[k], item@) <= 0,
                position < index ==> factor_order(item@, prefix[position as int]) < 0,
            decreases index - position,
        {
            if factor_less(&item, &factors[position]) {
                proof {
                    assert(factors@[position as int] == before[position as int]);
                }
                break;
            }
            proof {
                assert(factors@[position as int] == before[position as int]);
                lemma_factor_order_properties(item@, prefix[position as int], item@);
            }
            position = position + 1;
        }
        proof {
            if position < index {
                assert(factors@[position as int] == before[position as int]);
            }
        }
        factors.insert(position, item);
        proof {
            let now = factor_views(factors@.subrange(0, index + 1));
            assert(now =~= prefix.insert(position as int, item@)) by {
                assert forall|k: int| 0 <= k < now.len() implies now[k] == prefix.insert(position as int, item@)[k] by {
                    if k < position {
                        assert(factors@[k] == before[k]);
                    } else if k > position {
                        assert(factors@[k] == before[k - 1]);
                    }
                }
            }
            assert forall|i: int, j: int| 0 <= i < j < now.len() implies factor_order(
                #[trigger] now[i],
                #[trigger] now[j],
            ) <= 0 by {
                let p = position as int;
                if j < p {
                    assert(factor_order(prefix[i], prefix[j]) <= 0);
                } else if j == p {
                } else if i < p {
                    assert(factor_order(prefix[i], prefix[j - 1]) <= 0);
                } else if i == p {
                    if j - 1 > p {
                        assert(factor_order(prefix[p], prefix[j - 1]) <= 0);
                    }
                    lemma_factor_order_properties(item@, prefix[p], prefix[j - 1]);
                } else {
                    assert(factor_order(prefix[i - 1], prefix[j - 1]) <= 0);
                }
            }
            lemma_product_insert(prefix, position as int, item@);
            assert(input.subrange(0, index + 1).drop_last() =~= input.subrange(0, index as int));
            assert(input[index as int] == item@);
            assert forall|i: int| index + 1 <= i < factors@.len() implies #[trigger] factors@[i]@ == input[i] by {
                assert(factors@[i] == before[i]);
            }
            assert forall|i: int| 0 <= i < factors@.len() implies no_kronecker_factor(#[trigger] factors@[i]@) by {
                if i < position || i > index {
                    assert(factors@[i] == before[i]);
                } else if i > position {
                    assert(factors@[i] == before[i - 1]);
                }
            }
        }
        index = index + 1;
    }
    proof {
        assert(factors@.subrange(0, factors@.len() as int) =~= factors@);
        assert(input.subrange(0, input.len() as int) =~= input);
    }
}

impl SquareFreePolynomial {
    /// The factors that Kronecker's search splits the polynomial into, sorted by degree
    /// and then by coefficients from the highest degree down: their product is the
    /// polynomial, and the search finds no factor of any of them.
    pub fn factor(&self) -> (r: Result<Vec<IrreduciblePolynomial>, AlgnumError>)
        ensures
            match r {
                Ok(factors) => product_of(factor_views(factors@)) == self@ && factors_sorted(
                    factor_views(factors@),
                ) && forall|i: int|
                    0 <= i < factors@.len() ==> no_kronecker_factor(#[trigger] factors@[i]@),
                Err(e) => factorization_failure(e),
            },
    {
        let count = count_irreducible(self.polynomial())?;
        let count = allocation_total_to_usize(&count, AllocationResource::Factors)?;
        let mut factors: Vec<IrreduciblePolynomial> = Vec::new();
        reserve_elements(&mut factors, count, AllocationResource::Factors)?;
        factor_recursive(self.polynomial(), &mut factors)?;
        proof {
            assert(factors@.subrange(0, factors@.len() as int) =~= factors@);
        }
        sort_factors(&mut factors);
        Ok(factors)
    }
}

} // verus!
