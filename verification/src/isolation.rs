//! Isolation of the real roots of a polynomial by its Sturm sequence: a bound on the
//! roots, bisection of the interval it gives until each part holds one root, and the
//! refinement and certification of single roots.
use crate::algnum_error::{reserve_elements, resource_failure, AlgnumError, AllocationResource};
use crate::dyadic::{dyadic_le, dyadic_normal, is_greater, Dyadic, DyadicEnclosure};
use crate::integer::{abs, BigInt, Sign};
use crate::interpolation::{lemma_rat_integer_ops, lemma_reduced_integer};
use crate::natural::BigUint;
use crate::polynomial::{int_values, is_trimmed, poly_eval, poly_eval_rat, Polynomial};
use crate::rational::{reduced_form, RawRational};
use crate::sturm::{
    child_view, child_views, count_sum, counts_roots, is_isolated_root_count, split_refusal,
    variations_monotone, dyadic_lt, dyadic_value, is_root_at, is_split, proper_child,
    split_failure, split_overflows, refused_as, variations, SturmSequence,
};
use vstd::arithmetic::power2::pow2;
use vstd::prelude::*;

verus! {

/// The value of an integer polynomial at an integer, by Horner's rule over the
/// rationals, is the integer value.
pub proof fn lemma_eval_rat_integer(a: Seq<int>, x: int)
    ensures
        poly_eval_rat(a, (x, 1nat)) == (poly_eval(a, x), 1nat),
    decreases a.len(),
{
    if a.len() > 0 {
        lemma_eval_rat_integer(a.drop_first(), x);
        let v = poly_eval(a.drop_first(), x);
        lemma_rat_integer_ops(v, x);
        lemma_rat_integer_ops(v * x, a[0]);
        assert(v * x + a[0] == a[0] + x * v) by (nonlinear_arith);
    }
}

/// At the integer `c` the first polynomial vanishes exactly when its integer value does.
pub proof fn lemma_integer_root(polynomials: Seq<Seq<int>>, c: int)
    requires
        polynomials.len() >= 1,
    ensures
        dyadic_normal(c, 0) == (c, 0nat),
        is_root_at(polynomials, (c, 0nat)) <==> poly_eval(polynomials[0], c) == 0,
{
    assert(pow2(0) == 1) by {
        vstd::arithmetic::power2::lemma2_to64();
    }
    lemma_reduced_integer(c);
    assert(dyadic_value((c, 0nat)) == (c, 1nat));
    lemma_eval_rat_integer(polynomials[0], c);
}

/// The first polynomial vanishes at `-c` or at `c`.
pub open spec fn root_pair(p: Seq<int>, c: int) -> bool {
    poly_eval(p, -c) == 0 || poly_eval(p, c) == 0
}

/// `(lower, upper)` is `(-b, b)` for the least `b` from `bound` on at which neither
/// `-b` nor `b` is a root of the first polynomial.
pub open spec fn is_nonroot_interval_from(
    polynomials: Seq<Seq<int>>,
    bound: int,
    lower: (int, nat),
    upper: (int, nat),
) -> bool {
    exists|b: int|
        bound <= b && lower == (-b, 0nat) && upper == (b, 0nat) && !#[trigger] root_pair(
            polynomials[0],
            b,
        ) && forall|c: int| bound <= c < b ==> #[trigger] root_pair(polynomials[0], c)
}

/// A dyadic as a multiple of the finest step `2^-u32::MAX`.
pub open spec fn grid(d: (int, nat)) -> int {
    d.0 * pow2((u32::MAX - d.1) as nat)
}

/// On dyadics with exponents that fit in `u32`, the order is that of their grid values.
pub proof fn lemma_grid_order(a: (int, nat), b: (int, nat))
    requires
        a.1 <= u32::MAX,
        b.1 <= u32::MAX,
    ensures
        dyadic_le(a, b) <==> grid(a) <= grid(b),
        dyadic_lt(a, b) <==> grid(a) < grid(b),
{
    lemma_grid_le(a, b);
    lemma_grid_le(b, a);
}

/// One direction of the order at a time.
proof fn lemma_grid_le(a: (int, nat), b: (int, nat))
    requires
        a.1 <= u32::MAX,
        b.1 <= u32::MAX,
    ensures
        dyadic_le(a, b) <==> grid(a) <= grid(b),
{
    let k = u32::MAX as nat;
    let ea = (k - a.1) as nat;
    let eb = (k - b.1) as nat;
    vstd::arithmetic::power2::lemma_pow2_adds(a.1, ea);
    vstd::arithmetic::power2::lemma_pow2_adds(b.1, eb);
    vstd::arithmetic::power2::lemma_pow2_pos(ea);
    vstd::arithmetic::power2::lemma_pow2_pos(eb);
    let (pa, pb, pea, peb, pk) = (pow2(a.1), pow2(b.1), pow2(ea), pow2(eb), pow2(k));
    let f = pea * peb;
    assert(f > 0) by (nonlinear_arith)
        requires
            pea > 0,
            peb > 0,
            f == pea * peb,
    ;
    assert(a.0 * pb * f == grid(a) * pk) by (nonlinear_arith)
        requires
            grid(a) == a.0 * pea,
            pb * peb == pk,
            f == pea * peb,
    ;
    assert(b.0 * pa * f == grid(b) * pk) by (nonlinear_arith)
        requires
            grid(b) == b.0 * peb,
            pa * pea == pk,
            f == pea * peb,
    ;
    vstd::arithmetic::power2::lemma_pow2_pos(k);
    assert((a.0 * pb <= b.0 * pa) <==> (a.0 * pb * f <= b.0 * pa * f)) by (nonlinear_arith)
        requires
            f > 0,
    ;
    assert((grid(a) * pk <= grid(b) * pk) <==> (grid(a) <= grid(b))) by (nonlinear_arith)
        requires
            pk > 0,
    ;
}

/// The square of the grid width of an interval.
pub open spec fn width_square(c: ((int, nat), (int, nat), nat)) -> int {
    (grid(c.1) - grid(c.0)) * (grid(c.1) - grid(c.0))
}

/// The sum of the squared grid widths.
pub open spec fn square_sum(s: Seq<((int, nat), (int, nat), nat)>) -> int
    decreases s.len(),
{
    if s.len() == 0 {
        0
    } else {
        square_sum(s.drop_last()) + width_square(s.last())
    }
}

/// A sum of squares is not negative.
pub proof fn lemma_square_sum_nonnegative(s: Seq<((int, nat), (int, nat), nat)>)
    ensures
        square_sum(s) >= 0,
    decreases s.len(),
{
    if s.len() > 0 {
        lemma_square_sum_nonnegative(s.drop_last());
        let w = grid(s.last().1) - grid(s.last().0);
        assert(w * w >= 0) by (nonlinear_arith);
    }
}

/// Both sums split over a concatenation.
pub proof fn lemma_sums_concat(a: Seq<((int, nat), (int, nat), nat)>, b: Seq<((int, nat), (int, nat), nat)>)
    ensures
        square_sum(a + b) == square_sum(a) + square_sum(b),
        count_sum(a + b) == count_sum(a) + count_sum(b),
    decreases b.len(),
{
    if b.len() == 0 {
        assert(a + b =~= a);
    } else {
        lemma_sums_concat(a, b.drop_last());
        assert((a + b).drop_last() =~= a + b.drop_last());
    }
}

/// Ordered intervals inside `[lo, hi]`, each shorter than it, have squared widths that
/// sum to less than its own; here over the grid values of their ends.
proof fn lemma_square_sum_below(s: Seq<((int, nat), (int, nat), nat)>, lo: int, hi: int)
    requires
        lo < hi,
        forall|k: int| 0 <= k < s.len() ==> lo <= grid(#[trigger] s[k].0) < grid(s[k].1) <= hi,
        forall|k: int| 0 <= k < s.len() ==> lo < grid(#[trigger] s[k].0) || grid(s[k].1) < hi,
        forall|i: int, j: int| 0 <= i < j < s.len() ==> grid(#[trigger] s[i].1) <= grid(#[trigger] s[j].0),
    ensures
        square_sum(s) < (hi - lo) * (hi - lo),
{
    if s.len() == 0 {
        assert((hi - lo) * (hi - lo) > 0) by (nonlinear_arith)
            requires
                lo < hi,
        ;
    } else {
        let span = hi - lo;
        if s.len() == 1 {
            let w = grid(s[0].1) - grid(s[0].0);
            assert(s[0] == s.last());
            assert(square_sum(s.drop_last()) == 0);
            assert(width_square(s.last()) == w * w);
            assert(0 < w < span);
            assert(w * w < span * span) by (nonlinear_arith)
                requires
                    0 < w < span,
            ;
        } else {
            let t = s.drop_last();
            let x = grid(s.last().0) - lo;
            let w = grid(s.last().1) - grid(s.last().0);
            lemma_square_sum_upto(t, lo);
            let y = grid(t.last().1) - lo;
            assert(t.last() == s[s.len() - 2]);
            assert(grid(t.last().1) <= grid(s.last().0));
            assert(grid(s[0].0) < grid(s[0].1));
            assert(grid(s[0].1) <= grid(t.last().1));
            assert(0 < y <= x);
            assert(width_square(s.last()) == w * w);
            assert(x + w <= span);
            assert(y * y + w * w < span * span) by (nonlinear_arith)
                requires
                    0 < y <= x,
                    w > 0,
                    x + w <= span,
            ;
        }
    }
}

/// Ordered intervals from `lo` on: their squared widths sum to at most the square of the
/// distance from `lo` to the end of the last.
proof fn lemma_square_sum_upto(s: Seq<((int, nat), (int, nat), nat)>, lo: int)
    requires
        s.len() > 0,
        forall|k: int| 0 <= k < s.len() ==> lo <= grid(#[trigger] s[k].0) < grid(s[k].1),
        forall|i: int, j: int| 0 <= i < j < s.len() ==> grid(#[trigger] s[i].1) <= grid(#[trigger] s[j].0),
    ensures
        square_sum(s) <= (grid(s.last().1) - lo) * (grid(s.last().1) - lo),
    decreases s.len(),
{
    let x = grid(s.last().0) - lo;
    let w = grid(s.last().1) - grid(s.last().0);
    let top = grid(s.last().1) - lo;
    assert(x >= 0 && w > 0 && top == x + w);
    assert(width_square(s.last()) == w * w);
    if s.len() == 1 {
        assert(s.drop_last().len() == 0);
        assert(square_sum(s.drop_last()) == 0);
        assert(w * w <= top * top) by (nonlinear_arith)
            requires
                x >= 0,
                w > 0,
                top == x + w,
        ;
    } else {
        let t = s.drop_last();
        lemma_square_sum_upto(t, lo);
        let y = grid(t.last().1) - lo;
        assert(t.last() == s[s.len() - 2]);
        assert(grid(t.last().1) <= grid(s.last().0));
        assert(0 <= y <= x);
        assert(y * y + w * w <= top * top) by (nonlinear_arith)
            requires
                0 <= y <= x,
                w > 0,
                top == x + w,
        ;
    }
}

/// The weak order of dyadics is transitive.
pub proof fn lemma_dyadic_le_trans(a: (int, nat), b: (int, nat), c: (int, nat))
    requires
        dyadic_le(a, b),
        dyadic_le(b, c),
    ensures
        dyadic_le(a, c),
{
    vstd::arithmetic::power2::lemma_pow2_pos(a.1);
    vstd::arithmetic::power2::lemma_pow2_pos(b.1);
    vstd::arithmetic::power2::lemma_pow2_pos(c.1);
    let (pa, pb, pc) = (pow2(a.1), pow2(b.1), pow2(c.1));
    assert(a.0 * pc <= c.0 * pa) by (nonlinear_arith)
        requires
            a.0 * pb <= b.0 * pa,
            b.0 * pc <= c.0 * pb,
            pa > 0,
            pb > 0,
            pc > 0,
    ;
}

/// Variations that do not increase on an interval do not increase on a part of it.
pub proof fn lemma_monotone_part(
    polys: Seq<Seq<int>>,
    lower: (int, nat),
    upper: (int, nat),
    lo: (int, nat),
    hi: (int, nat),
)
    requires
        variations_monotone(polys, lower, upper),
        dyadic_le(lower, lo),
        dyadic_le(hi, upper),
    ensures
        variations_monotone(polys, lo, hi),
{
    assert forall|a: (int, nat), b: (int, nat)|
        dyadic_le(lo, a) && dyadic_lt(a, b) && dyadic_le(b, hi) && !is_root_at(polys, a)
            && !is_root_at(polys, b) implies #[trigger] variations(polys, a) >= #[trigger] variations(
        polys,
        b,
    ) by {
        lemma_dyadic_le_trans(lower, lo, a);
        lemma_dyadic_le_trans(b, hi, upper);
    }
}

/// Intervals with positive counts that sum to one: the first has count one.
pub proof fn lemma_count_sum_one(s: Seq<((int, nat), (int, nat), nat)>)
    requires
        count_sum(s) == 1,
        forall|k: int| 0 <= k < s.len() ==> #[trigger] s[k].2 > 0,
    ensures
        s.len() == 1,
        s[0].2 == 1,
    decreases s.len(),
{
    if s.len() > 1 {
        let t = s.drop_last();
        assert(s.last().2 > 0);
        assert forall|k: int| 0 <= k < t.len() implies #[trigger] t[k].2 > 0 by {
            assert(t[k] == s[k]);
        }
        lemma_count_sum_nonnegative(t);
        assert(t.last() == s[s.len() - 2]);
        assert(count_sum(t) >= t.last().2) by {
            lemma_count_sum_nonnegative(t.drop_last());
        }
        assert(false);
    } else if s.len() == 0 {
    } else {
        assert(s.drop_last().len() == 0);
        assert(count_sum(s.drop_last()) == 0);
        assert(s.last() == s[0]);
    }
}

/// Counts sum to no less than zero.
proof fn lemma_count_sum_nonnegative(s: Seq<((int, nat), (int, nat), nat)>)
    ensures
        count_sum(s) >= 0,
    decreases s.len(),
{
    if s.len() > 0 {
        lemma_count_sum_nonnegative(s.drop_last());
    }
}

/// The variations increase somewhere on the interval of the root bound.
pub open spec fn increases_on_bound_interval(polynomials: Seq<Seq<int>>) -> bool {
    exists|lower: (int, nat), upper: (int, nat)|
        #[trigger] is_nonroot_interval_from(polynomials, root_bound(polynomials[0]), lower, upper)
            && !variations_monotone(polynomials, lower, upper)
}

/// Some interval that counts at least two roots cannot be split within the `u32`
/// exponents.
pub open spec fn split_may_overflow(polynomials: Seq<Seq<int>>) -> bool {
    exists|lo: (int, nat), hi: (int, nat), count: int|
        #[trigger] split_overflows(polynomials, lo, hi, count) && counts_roots(polynomials, lo, hi)
            && count == variations(polynomials, lo) - variations(polynomials, hi) && count >= 2
}

/// How root isolation fails: for want of resources, past the `u32` exponents when some
/// interval that counts several roots cannot be split within them, or with an invalid
/// isolation where the variations increase on the interval of the root bound.
pub open spec fn isolation_failure(polynomials: Seq<Seq<int>>, e: AlgnumError) -> bool {
    ||| resource_failure(e)
    ||| (e matches AlgnumError::Bigint(b) && b is ExponentOverflow && split_may_overflow(polynomials))
    ||| (e is InvalidIsolation && increases_on_bound_interval(polynomials))
}

/// The Cauchy bound is at least one.
proof fn lemma_root_bound_positive(p: Seq<int>, m: nat)
    ensures
        coefficient_bound(p, m) >= 0,
    decreases m,
{
    if m > 0 {
        lemma_root_bound_positive(p, (m - 1) as nat);
    }
}

/// A coefficient is at most its ratio ceiling times the leading coefficient.
proof fn lemma_ratio_ceiling_bounds(c: int, lead: int)
    requires
        lead != 0,
    ensures
        abs(c) <= ratio_ceiling(c, lead) * abs(lead),
        ratio_ceiling(c, lead) >= 0,
{
    let a = abs(c) as int;
    let b = abs(lead);
    crate::rational::lemma_reduced_form(a, b);
    let r = reduced_form(a, b);
    let n = r.0;
    let d = r.1 as int;
    assert(n * b == a * d);
    assert(n >= 0) by {
        if n < 0 {
            assert(n * b < 0) by (nonlinear_arith)
                requires
                    n < 0,
                    b > 0,
            ;
            assert(a * d >= 0) by (nonlinear_arith)
                requires
                    a >= 0,
                    d > 0,
            ;
        }
    }
    let q = n / d;
    let ceil = ratio_ceiling(c, lead);
    assert(n <= ceil * d) by (nonlinear_arith)
        requires
            d > 0,
            n >= 0,
            q == n / d,
            ceil == if n % d == 0 {
                q
            } else {
                q + 1
            },
    ;
    assert(ceil >= 0) by (nonlinear_arith)
        requires
            d > 0,
            n >= 0,
            q == n / d,
            ceil == if n % d == 0 {
                q
            } else {
                q + 1
            },
    ;
    assert(a * d <= ceil * b * d) by (nonlinear_arith)
        requires
            n <= ceil * d,
            n * b == a * d,
            b > 0,
    ;
    assert(a <= ceil * b) by (nonlinear_arith)
        requires
            a * d <= ceil * b * d,
            d > 0,
    ;
}

/// Every one of the first `m` coefficients is at most the bound times the leading one.
proof fn lemma_coefficient_bound_dominates(p: Seq<int>, m: nat, i: int)
    requires
        p.len() > 0,
        p[p.len() - 1] != 0,
        0 <= i < m,
        m <= p.len(),
    ensures
        abs(p[i]) <= coefficient_bound(p, m) * abs(p[p.len() - 1]),
    decreases m,
{
    let lead = p[p.len() - 1];
    lemma_root_bound_positive(p, (m - 1) as nat);
    let previous = coefficient_bound(p, (m - 1) as nat);
    let bound = coefficient_bound(p, m);
    assert(bound >= previous);
    if i == m - 1 {
        lemma_ratio_ceiling_bounds(p[i], lead);
        assert(bound >= ratio_ceiling(p[i], lead));
        assert(ratio_ceiling(p[i], lead) * abs(lead) <= bound * abs(lead)) by (nonlinear_arith)
            requires
                ratio_ceiling(p[i], lead) <= bound,
                abs(lead) >= 0,
        ;
    } else {
        lemma_coefficient_bound_dominates(p, (m - 1) as nat, i);
        assert(previous * abs(lead) <= bound * abs(lead)) by (nonlinear_arith)
            requires
                previous <= bound,
                abs(lead) >= 0,
        ;
    }
}

/// Horner's value of `s` is within `|lead| (|x|^(n) - 1)` of its leading term, when
/// every lower coefficient is at most `m |lead|` and `|x| >= m + 1`.
proof fn lemma_leading_term_dominates(s: Seq<int>, x: int, m: int)
    requires
        s.len() >= 1,
        s[s.len() - 1] != 0,
        m >= 0,
        abs(x) >= m + 1,
        forall|i: int| 0 <= i < s.len() - 1 ==> abs(#[trigger] s[i]) <= m * abs(s[s.len() - 1]),
    ensures
        abs(poly_eval(s, x) - s[s.len() - 1] * vstd::arithmetic::power::pow(x, (s.len() - 1) as nat))
            <= abs(s[s.len() - 1]) * (vstd::arithmetic::power::pow(abs(x) as int, (s.len() - 1) as nat) - 1),
    decreases s.len(),
{
    let lead = s[s.len() - 1];
    let n = (s.len() - 1) as nat;
    if s.len() == 1 {
        assert(s.drop_first().len() == 0);
        assert(poly_eval(s.drop_first(), x) == 0);
        assert(poly_eval(s, x) == s[0] + x * poly_eval(s.drop_first(), x));
        assert(x * 0 == 0);
        vstd::arithmetic::power::lemma_pow0(x);
        vstd::arithmetic::power::lemma_pow0(abs(x) as int);
    } else {
        let rest = s.drop_first();
        assert(rest[rest.len() - 1] == lead);
        assert forall|i: int| 0 <= i < rest.len() - 1 implies abs(#[trigger] rest[i]) <= m * abs(
            rest[rest.len() - 1],
        ) by {
            assert(rest[i] == s[i + 1]);
        }
        lemma_leading_term_dominates(rest, x, m);
        let k = (n - 1) as nat;
        let e = poly_eval(rest, x) - lead * vstd::arithmetic::power::pow(x, k);
        let t = vstd::arithmetic::power::pow(abs(x) as int, k);
        vstd::arithmetic::power::lemma_pow_positive(abs(x) as int, k);
        assert(vstd::arithmetic::power::pow(x, n) == x * vstd::arithmetic::power::pow(x, k)) by {
            vstd::arithmetic::power::lemma_pow_adds(x, 1, k);
            vstd::arithmetic::power::lemma_pow1(x);
        }
        assert(vstd::arithmetic::power::pow(abs(x) as int, n) == abs(x) * t) by {
            vstd::arithmetic::power::lemma_pow_adds(abs(x) as int, 1, k);
            vstd::arithmetic::power::lemma_pow1(abs(x) as int);
        }
        let a = s[0];
        assert(abs(a) <= m * abs(lead));
        let total = poly_eval(s, x) - lead * vstd::arithmetic::power::pow(x, n);
        assert(total == a + x * e) by (nonlinear_arith)
            requires
                poly_eval(s, x) == a + x * poly_eval(rest, x),
                e == poly_eval(rest, x) - lead * vstd::arithmetic::power::pow(x, k),
                vstd::arithmetic::power::pow(x, n) == x * vstd::arithmetic::power::pow(x, k),
                total == poly_eval(s, x) - lead * vstd::arithmetic::power::pow(x, n),
        ;
        let ax = abs(x) as int;
        let al = abs(lead) as int;
        assert(abs(total) <= al * (ax * t - 1)) by (nonlinear_arith)
            requires
                total == a + x * e,
                abs(e) <= al * (t - 1),
                abs(a) <= m * al,
                ax == abs(x),
                ax >= m + 1,
                m >= 0,
                al >= 0,
                t > 0,
        ;
    }
}

/// Cauchy's bound: at every integer `x` with `|x|` at least the root bound of `p`, `p`
/// has the sign of its leading term `lead * x^n`, so it has no root and no sign change
/// there.
pub proof fn lemma_root_bound_fixes_the_sign(p: Seq<int>, x: int)
    requires
        p.len() >= 2,
        p[p.len() - 1] != 0,
        abs(x) >= root_bound(p),
    ensures
        poly_eval(p, x) != 0,
        (poly_eval(p, x) > 0) == (p[p.len() - 1] * vstd::arithmetic::power::pow(x, (p.len() - 1) as nat) > 0),
{
    let n = (p.len() - 1) as nat;
    let m = coefficient_bound(p, n);
    let lead = p[p.len() - 1];
    lemma_root_bound_positive(p, n);
    assert forall|i: int| 0 <= i < p.len() - 1 implies abs(#[trigger] p[i]) <= m * abs(p[p.len() - 1]) by {
        lemma_coefficient_bound_dominates(p, n, i);
    }
    lemma_leading_term_dominates(p, x, m);
    let ax = abs(x) as int;
    let t = vstd::arithmetic::power::pow(ax, n);
    let w = vstd::arithmetic::power::pow(x, n);
    vstd::arithmetic::power::lemma_pow_positive(ax, n);
    assert(abs(w) == t) by {
        lemma_pow_abs(x, n);
    }
    let v = poly_eval(p, x);
    let al = abs(lead) as int;
    assert(abs(lead * w) == al * t) by (nonlinear_arith)
        requires
            abs(w) == t,
            al == abs(lead),
    ;
    assert(al * t > 0) by (nonlinear_arith)
        requires
            al > 0,
            t > 0,
    ;
    assert(abs(v - lead * w) <= al * t - al) by (nonlinear_arith)
        requires
            abs(v - lead * w) <= al * (t - 1),
    ;
}

/// The magnitude of a power is the power of the magnitude.
proof fn lemma_pow_abs(x: int, n: nat)
    ensures
        abs(vstd::arithmetic::power::pow(x, n)) == vstd::arithmetic::power::pow(abs(x) as int, n),
    decreases n,
{
    vstd::arithmetic::power::lemma_pow0(x);
    vstd::arithmetic::power::lemma_pow0(abs(x) as int);
    if n > 0 {
        lemma_pow_abs(x, (n - 1) as nat);
        vstd::arithmetic::power::lemma_pow_adds(x, 1, (n - 1) as nat);
        vstd::arithmetic::power::lemma_pow1(x);
        vstd::arithmetic::power::lemma_pow_adds(abs(x) as int, 1, (n - 1) as nat);
        vstd::arithmetic::power::lemma_pow1(abs(x) as int);
        let a = vstd::arithmetic::power::pow(x, (n - 1) as nat);
        let b = vstd::arithmetic::power::pow(abs(x) as int, (n - 1) as nat);
        assert(abs(x * a) == abs(x) * abs(a)) by (nonlinear_arith);
    }
}

/// The least integer not below `|c| / |lead|`, from the reduced ratio.
pub open spec fn ratio_ceiling(c: int, lead: int) -> int {
    let r = reduced_form(abs(c) as int, abs(lead));
    if r.0 % (r.1 as int) == 0 {
        r.0 / (r.1 as int)
    } else {
        r.0 / (r.1 as int) + 1
    }
}

/// The largest ratio ceiling among the first `m` coefficients, and zero.
pub open spec fn coefficient_bound(p: Seq<int>, m: nat) -> int
    decreases m,
{
    if m == 0 {
        0
    } else {
        let previous = coefficient_bound(p, (m - 1) as nat);
        let c = ratio_ceiling(p[m - 1], p[p.len() - 1]);
        if previous < c {
            c
        } else {
            previous
        }
    }
}

/// Cauchy's bound on the roots: one more than the largest ceiling of a coefficient
/// over the leading one, in absolute value.
pub open spec fn root_bound(p: Seq<int>) -> int {
    coefficient_bound(p, (p.len() - 1) as nat) + 1
}

/// A root isolated by the Sturm sequence: its position among the real roots, in
/// increasing order, and an interval that holds it and no other.
#[derive(Debug, Eq, PartialEq)]
pub struct RootIsolation {
    pub index: usize,
    pub enclosure: DyadicEnclosure,
}

/// The interval `(lower, upper)` holds exactly one root by the Sturm sequence.
pub open spec fn isolates_one(polynomials: Seq<Seq<int>>, e: ((int, nat), (int, nat))) -> bool {
    &&& counts_roots(polynomials, e.0, e.1)
    &&& variations(polynomials, e.0) - variations(polynomials, e.1) == 1
}

/// The positions and intervals of isolated roots.
pub open spec fn root_views(s: Seq<RootIsolation>) -> Seq<(usize, ((int, nat), (int, nat)))> {
    Seq::new(s.len(), |i: int| (s[i].index, s[i].enclosure@))
}

/// `roots` isolates, in increasing order and one interval each, as many roots as the
/// Sturm sequence counts in `(lower, upper)`, all inside it.
pub open spec fn isolates_roots_in(
    polynomials: Seq<Seq<int>>,
    lower: (int, nat),
    upper: (int, nat),
    roots: Seq<(usize, ((int, nat), (int, nat)))>,
) -> bool {
    &&& counts_roots(polynomials, lower, upper)
    &&& roots.len() == variations(polynomials, lower) - variations(polynomials, upper)
    &&& forall|i: int|
        0 <= i < roots.len() ==> {
            let (index, e) = #[trigger] roots[i];
            &&& index == i
            &&& isolates_one(polynomials, e)
            &&& dyadic_le(lower, e.0)
            &&& dyadic_le(e.1, upper)
        }
    &&& forall|i: int, j: int|
        0 <= i < j < roots.len() ==> dyadic_le(#[trigger] roots[i].1.1, #[trigger] roots[j].1.0)
}

/// A pending interval: it holds roots by the Sturm sequence, between `lo` and `hi` on
/// the grid.
pub open spec fn good_entry(polynomials: Seq<Seq<int>>, e: ((int, nat), (int, nat), nat), lo: int, hi: int) -> bool {
    &&& counts_roots(polynomials, e.0, e.1)
    &&& e.2 == variations(polynomials, e.0) - variations(polynomials, e.1)
    &&& e.2 >= 1
    &&& e.0.1 <= u32::MAX
    &&& e.1.1 <= u32::MAX
    &&& lo <= grid(e.0) < grid(e.1) <= hi
}

/// An isolated interval, between `lo` and `hi` on the grid.
pub open spec fn good_result(polynomials: Seq<Seq<int>>, e: ((int, nat), (int, nat)), lo: int, hi: int) -> bool {
    &&& isolates_one(polynomials, e)
    &&& e.0.1 <= u32::MAX
    &&& e.1.1 <= u32::MAX
    &&& lo <= grid(e.0) < grid(e.1) <= hi
}

/// The intervals of a list of enclosures.
pub open spec fn enclosure_views(s: Seq<DyadicEnclosure>) -> Seq<((int, nat), (int, nat))> {
    Seq::new(s.len(), |i: int| s[i]@)
}

/// The width of an interval, in normal form, as `DyadicEnclosure::width` computes it.
pub open spec fn enclosure_width(e: ((int, nat), (int, nat))) -> (int, nat) {
    let c = if e.1.1 >= e.0.1 {
        e.1.1
    } else {
        e.0.1
    };
    dyadic_normal(e.1.0 * pow2((c - e.1.1) as nat) - e.0.0 * pow2((c - e.0.1) as nat), c)
}

/// The intersection of `[lo, hi]` with the interval `e`, as its larger lower and smaller
/// upper endpoints.
pub open spec fn intersect(lo: (int, nat), hi: (int, nat), e: ((int, nat), (int, nat))) -> (
    (int, nat),
    (int, nat),
) {
    (if dyadic_le(e.0, lo) {
        lo
    } else {
        e.0
    }, if dyadic_le(hi, e.1) {
        hi
    } else {
        e.1
    })
}


/// `e` is the first nonempty intersection of `[lo, hi]` with the intervals of the
/// isolated roots, and it belongs to root `index`.
pub open spec fn certified_root(
    polynomials: Seq<Seq<int>>,
    lo: (int, nat),
    hi: (int, nat),
    index: usize,
    e: ((int, nat), (int, nat)),
) -> bool {
    exists|l: (int, nat), u: (int, nat), roots: Seq<(usize, ((int, nat), (int, nat)))>|
        #![trigger is_nonroot_interval_from(polynomials, root_bound(polynomials[0]), l, u), isolates_roots_in(polynomials, l, u, roots)]
        is_nonroot_interval_from(polynomials, root_bound(polynomials[0]), l, u)
            && isolates_roots_in(polynomials, l, u, roots) && index < roots.len() && e == intersect(
            lo,
            hi,
            roots[index as int].1,
        ) && dyadic_lt(e.0, e.1) && forall|i: int|
            0 <= i < index ==> !dyadic_lt(
                #[trigger] intersect(lo, hi, roots[i].1).0,
                intersect(lo, hi, roots[i].1).1,
            )
}

/// How refinement fails: for want of resources, past the `u32` exponents, or with an
/// invalid isolation of an interval that does not hold one root or on which the
/// variations increase.
pub open spec fn refine_failure(
    polynomials: Seq<Seq<int>>,
    enclosure: ((int, nat), (int, nat)),
    e: AlgnumError,
) -> bool {
    ||| resource_failure(e)
    ||| (e matches AlgnumError::Bigint(b) && b is ExponentOverflow && exists|lo: (int, nat), hi: (int, nat)|
        #[trigger] split_overflows(polynomials, lo, hi, 1) && isolates_one(polynomials, (lo, hi))
            && dyadic_le(enclosure.0, lo) && dyadic_le(hi, enclosure.1))
    ||| (e is InvalidIsolation && (!isolates_one(polynomials, enclosure) || !variations_monotone(
        polynomials,
        enclosure.0,
        enclosure.1,
    )))
}

/// Every interval of some isolation of the real roots misses `(lower, upper)`.
pub open spec fn misses_isolated_roots(polynomials: Seq<Seq<int>>, lower: (int, nat), upper: (int, nat)) -> bool {
    exists|l: (int, nat), u: (int, nat), roots: Seq<(usize, ((int, nat), (int, nat)))>|
        #![trigger is_nonroot_interval_from(polynomials, root_bound(polynomials[0]), l, u), isolates_roots_in(polynomials, l, u, roots)]
        is_nonroot_interval_from(polynomials, root_bound(polynomials[0]), l, u)
            && isolates_roots_in(polynomials, l, u, roots) && forall|i: int|
            0 <= i < roots.len() ==> !dyadic_lt(
                #[trigger] intersect(lower, upper, roots[i].1).0,
                intersect(lower, upper, roots[i].1).1,
            )
}

/// Certification on `(lower, upper)` finds no root: the interval counts none, or it
/// counts one that every isolated interval misses.
pub open spec fn no_target(polynomials: Seq<Seq<int>>, lower: (int, nat), upper: (int, nat)) -> bool {
    &&& counts_roots(polynomials, lower, upper)
    &&& (variations(polynomials, lower) == variations(polynomials, upper) || (variations(
        polynomials,
        lower,
    ) - variations(polynomials, upper) == 1 && misses_isolated_roots(polynomials, lower, upper)))
}

/// What certification of an interval that holds one root gives: the root, or a failure
/// for want of resources or past the `u32` exponents, an invalid isolation where the
/// variations increase on the interval of the root bound, or no target root when the
/// isolated intervals all miss the interval.
pub open spec fn certify_outcome<T>(
    polynomials: Seq<Seq<int>>,
    lower: (int, nat),
    upper: (int, nat),
    r: Result<T, AlgnumError>,
) -> bool {
    match r {
        Ok(_) => true,
        Err(e) => isolation_failure(polynomials, e) || (e is NoTargetRoot && misses_isolated_roots(
            polynomials,
            lower,
            upper,
        )),
    }
}

impl SturmSequence {
    /// The interval `[-b, b]` for the least `b` from `bound` on at which the first
    /// polynomial vanishes at neither end.
    pub fn nonroot_interval_from_bound(&self, bound: BigInt) -> (r: Result<(Dyadic, Dyadic), AlgnumError>)
        ensures
            match r {
                Ok((lower, upper)) => is_nonroot_interval_from(self@, bound@, lower@, upper@),
                Err(e) => resource_failure(e),
            },
    {
        let first = &self.polynomials()[0];
        proof {
            use_type_invariant(first);
        }
        let ghost polys = self@;
        let ghost p = polys[0];
        let ghost start = bound@;
        let ghost mut found: Seq<int> = Seq::empty();
        let mut current = bound;
        loop
            invariant
                polys == self@,
                start == bound@,
                polys.len() >= 1,
                p == polys[0],
                p.len() >= 2,
                is_trimmed(p),
                start <= current@,
                forall|c: int| start <= c < current@ ==> #[trigger] root_pair(p, c),
                forall|i: int| 0 <= i < found.len() ==> poly_eval(p, #[trigger] found[i]) == 0,
                forall|i: int| 0 <= i < found.len() ==> abs(#[trigger] found[i]) < current@,
                forall|i: int, j: int| 0 <= i < j < found.len() ==> found[i] != found[j],
            decreases (if current@ < 0 {
                -current@
            } else {
                0
            }) + p.len() - found.len(),
        {
            proof {
                crate::factor::lemma_root_bound(p, found);
            }
            let upper_end = match current.try_clone() {
                Ok(v) => v,
                Err(error) => return Err(AlgnumError::Bigint(error)),
            };
            let lower_end = match current.negated() {
                Ok(v) => v,
                Err(error) => return Err(AlgnumError::Bigint(error)),
            };
            let upper = Dyadic::new(upper_end, 0);
            let lower = Dyadic::new(lower_end, 0);
            proof {
                lemma_integer_root(polys, current@);
                lemma_integer_root(polys, -current@);
            }
            let lower_root = self.is_root(&lower)?;
            let upper_root = self.is_root(&upper)?;
            if !lower_root && !upper_root {
                proof {
                    assert(!root_pair(p, current@));
                    assert(is_nonroot_interval_from(polys, start, lower@, upper@));
                }
                return Ok((lower, upper));
            }
            let one = match BigInt::one() {
                Ok(v) => v,
                Err(error) => return Err(AlgnumError::Bigint(error)),
            };
            let next = match current.add(&one) {
                Ok(v) => v,
                Err(error) => return Err(AlgnumError::Bigint(error)),
            };
            proof {
                assert(root_pair(p, current@));
                if current@ >= 0 {
                    let root = if lower_root {
                        -current@
                    } else {
                        current@
                    };
                    found = found.push(root);
                }
            }
            current = next;
        }
    }

    /// The interval `[-b, b]` for the least `b` from Cauchy's bound on at which the first
    /// polynomial vanishes at neither end.
    pub fn initial_interval(&self) -> (r: Result<(Dyadic, Dyadic), AlgnumError>)
        ensures
            match r {
                Ok((lower, upper)) => is_nonroot_interval_from(
                    self@,
                    root_bound(self@[0]),
                    lower@,
                    upper@,
                ),
                Err(e) => resource_failure(e),
            },
    {
        let first = &self.polynomials()[0];
        proof {
            use_type_invariant(first);
        }
        let ghost p = self@[0];
        let coefficients = first.coefficients();
        assert(coefficients@.len() == p.len());
        let last = coefficients.len() - 1;
        let leading = &coefficients[last];
        proof {
            assert(leading@ == p[p.len() - 1]);
        }
        let mut maximum = BigInt::zero();
        let mut index: usize = 0;
        while index < last
            invariant
                p == self@[0],
                int_values(coefficients@) == p,
                last == p.len() - 1,
                p[p.len() - 1] != 0,
                leading@ == p[p.len() - 1],
                index <= last,
                maximum@ == coefficient_bound(p, index as nat),
            decreases last - index,
        {
            assert(coefficients@[index as int]@ == p[index as int]);
            let magnitude = match coefficients[index].magnitude().try_clone() {
                Ok(v) => v,
                Err(error) => return Err(AlgnumError::Bigint(error)),
            };
            let numerator = BigInt::from_sign_magnitude(Sign::Positive, magnitude);
            let denominator = match leading.magnitude().try_clone() {
                Ok(v) => v,
                Err(error) => return Err(AlgnumError::Bigint(error)),
            };
            let raw = RawRational::new(numerator, denominator);
            let reduction = match raw.reduce() {
                Ok(v) => v,
                Err(error) => return Err(AlgnumError::Bigint(error)),
            };
            let ratio = reduction.into_reduced();
            let ceiling = match ratio.ceil() {
                Ok(v) => v,
                Err(error) => return Err(AlgnumError::Bigint(error)),
            };
            if maximum.is_less_than(&ceiling) {
                maximum = ceiling;
            }
            index = index + 1;
        }
        let one = match BigInt::one() {
            Ok(v) => v,
            Err(error) => return Err(AlgnumError::Bigint(error)),
        };
        let bound = match maximum.add(&one) {
            Ok(v) => v,
            Err(error) => return Err(AlgnumError::Bigint(error)),
        };
        self.nonroot_interval_from_bound(bound)
    }

    /// The real roots of the first polynomial, in increasing order: the interval of
    /// the root bound, split by `split_interval` until each part holds one root.
    #[verifier::rlimit(60)]
    pub fn isolate_real_roots(&self) -> (r: Result<Vec<RootIsolation>, AlgnumError>)
        ensures
            match r {
                Ok(roots) => exists|lower: (int, nat), upper: (int, nat)|
                    #[trigger] is_nonroot_interval_from(self@, root_bound(self@[0]), lower, upper)
                        && isolates_roots_in(self@, lower, upper, root_views(roots@)),
                Err(e) => isolation_failure(self@, e),
            },
    {
        let ghost polys = self@;
        let (lower, upper) = self.initial_interval()?;
        let ghost lv = lower@;
        let ghost uv = upper@;
        let _ = self.polynomials();
        proof {
            assert(pow2(0) == 1) by {
                vstd::arithmetic::power2::lemma2_to64();
            }
            let b = choose|b: int|
                root_bound(polys[0]) <= b && lv == (-b, 0nat) && uv == (b, 0nat) && !#[trigger] root_pair(
                    polys[0],
                    b,
                ) && forall|c: int| root_bound(polys[0]) <= c < b ==> #[trigger] root_pair(polys[0], c);
            lemma_root_bound_positive(polys[0], (polys[0].len() - 1) as nat);
            lemma_integer_root(polys, b);
            lemma_integer_root(polys, -b);
            assert(b >= 1);
            assert(uv.0 * pow2(lv.1) == b && lv.0 * pow2(uv.1) == -b);
            assert(dyadic_lt(lv, uv));
        }
        let total = match self.root_count(&lower, &upper) {
            Ok(c) => c,
            Err(error) => {
                proof {
                    if error is InvalidIsolation {
                        assert(!variations_monotone(polys, lv, uv)) by {
                            if variations_monotone(polys, lv, uv) {
                                assert(variations(polys, lv) >= variations(polys, uv));
                            }
                        }
                        assert(increases_on_bound_interval(polys));
                    }
                }
                return Err(error);
            },
        };
        proof {
            lower.lemma_exponent_bound();
            upper.lemma_exponent_bound();
            lemma_grid_order(lv, uv);
        }
        let ghost gl = grid(lv);
        let ghost gu = grid(uv);
        let mut pending: Vec<(Dyadic, Dyadic, usize)> = Vec::new();
        let mut intervals: Vec<DyadicEnclosure> = Vec::new();
        reserve_elements(&mut pending, total, AllocationResource::RootIntervals)?;
        reserve_elements(&mut intervals, total, AllocationResource::RootIntervals)?;
        if total != 0 {
            pending.push((lower, upper, total));
            proof {
                let only = child_views(pending@);
                assert(only.drop_last() =~= Seq::<((int, nat), (int, nat), nat)>::empty());
                assert(count_sum(Seq::<((int, nat), (int, nat), nat)>::empty()) == 0);
                assert(only.last() == (lv, uv, total as nat));
                assert(count_sum(only) == total);
            }
        } else {
            proof {
                assert(child_views(pending@) =~= Seq::<((int, nat), (int, nat), nat)>::empty());
            }
        }
        while pending.len() > 0
            invariant
                polys == self@,
                is_nonroot_interval_from(polys, root_bound(polys[0]), lv, uv),
                gl == grid(lv),
                gu == grid(uv),
                lv.1 <= u32::MAX,
                uv.1 <= u32::MAX,
                forall|k: int|
                    0 <= k < pending@.len() ==> good_entry(polys, #[trigger] child_views(pending@)[k], gl, gu),
                forall|i: int, j: int|
                    0 <= i < j < pending@.len() ==> grid(#[trigger] child_views(pending@)[i].1) <= grid(
                        #[trigger] child_views(pending@)[j].0,
                    ),
                forall|i: int|
                    0 <= i < intervals@.len() ==> good_result(polys, #[trigger] enclosure_views(intervals@)[i], gl, gu),
                forall|i: int, j: int|
                    0 <= i < j < intervals@.len() ==> grid(#[trigger] enclosure_views(intervals@)[i].1) <= grid(
                        #[trigger] enclosure_views(intervals@)[j].0,
                    ),
                forall|i: int, k: int|
                    0 <= i < intervals@.len() && 0 <= k < pending@.len() ==> grid(
                        #[trigger] enclosure_views(intervals@)[i].1,
                    ) <= grid(#[trigger] child_views(pending@)[k].0),
                intervals@.len() + count_sum(child_views(pending@)) == total,
            decreases square_sum(child_views(pending@)),
        {
            let ghost pv = child_views(pending@);
            let ghost rv = enclosure_views(intervals@);
            let entry = pending.remove(0);
            let ghost rest = child_views(pending@);
            let ghost parent = pv[0];
            proof {
                assert(pv =~= seq![parent] + rest);
                lemma_sums_concat(seq![parent], rest);
                assert(seq![parent].drop_last() =~= Seq::<((int, nat), (int, nat), nat)>::empty());
                assert(square_sum(Seq::<((int, nat), (int, nat), nat)>::empty()) == 0);
                assert(count_sum(Seq::<((int, nat), (int, nat), nat)>::empty()) == 0);
                assert(seq![parent].last() == parent);
                assert(square_sum(seq![parent]) == width_square(parent));
                assert(count_sum(seq![parent]) == parent.2);
                assert(child_view(entry) == parent);
                assert forall|k: int| 0 <= k < rest.len() implies rest[k] == pv[k + 1] by {}
                assert(good_entry(polys, parent, gl, gu));
                let w = grid(parent.1) - grid(parent.0);
                assert(w * w > 0) by (nonlinear_arith)
                    requires
                        w > 0,
                ;
            }
            let (lo, hi, count) = entry;
            if is_isolated_root_count(count) {
                proof {
                    lemma_grid_order(lo@, hi@);
                }
                let enclosure = match DyadicEnclosure::new(lo, hi) {
                    Ok(v) => v,
                    Err(error) => return Err(AlgnumError::Bigint(error)),
                };
                intervals.push(enclosure);
                proof {
                    assert(enclosure_views(intervals@) =~= rv.push((parent.0, parent.1)));
                    assert forall|i: int, k: int|
                        0 <= i < intervals@.len() && 0 <= k < pending@.len() implies grid(
                        #[trigger] enclosure_views(intervals@)[i].1,
                    ) <= grid(#[trigger] child_views(pending@)[k].0) by {
                        assert(rest[k] == pv[k + 1]);
                        if i < rv.len() {
                            assert(grid(rv[i].1) <= grid(pv[k + 1].0));
                        } else {
                            assert(grid(pv[0].1) <= grid(pv[k + 1].0));
                        }
                    }
                    assert forall|i: int, j: int|
                        0 <= i < j < intervals@.len() implies grid(#[trigger] enclosure_views(intervals@)[i].1)
                        <= grid(#[trigger] enclosure_views(intervals@)[j].0) by {
                        if j == rv.len() {
                            assert(grid(rv[i].1) <= grid(pv[0].0));
                        }
                    }
                    assert forall|k: int| 0 <= k < pending@.len() implies good_entry(
                        polys,
                        #[trigger] child_views(pending@)[k],
                        gl,
                        gu,
                    ) by {
                        assert(rest[k] == pv[k + 1]);
                    }
                    assert forall|i: int, j: int|
                        0 <= i < j < pending@.len() implies grid(#[trigger] child_views(pending@)[i].1)
                        <= grid(#[trigger] child_views(pending@)[j].0) by {
                        assert(rest[i] == pv[i + 1]);
                        assert(rest[j] == pv[j + 1]);
                    }
                    assert(square_sum(child_views(pending@)) < square_sum(pv));
                    lemma_square_sum_nonnegative(child_views(pending@));
                }
            } else {
                let children = match self.split_interval(lo, hi, count) {
                    Ok(c) => c,
                    Err(error) => {
                        proof {
                            if error is InvalidIsolation && variations_monotone(polys, lv, uv) {
                                lemma_grid_order(lv, parent.0);
                                lemma_grid_order(parent.1, uv);
                                lemma_monotone_part(polys, lv, uv, parent.0, parent.1);
                            }
                            if error is InvalidIsolation {
                                assert(increases_on_bound_interval(polys));
                            }
                        }
                        return Err(error);
                    },
                };
                let ghost cv = child_views(children@);
                proof {
                    assert forall|k: int| 0 <= k < cv.len() implies good_entry(polys, #[trigger] cv[k], grid(parent.0), grid(parent.1))
                        && (grid(parent.0) < grid(cv[k].0) || grid(cv[k].1) < grid(parent.1)) by {
                        children@[k].0.lemma_exponent_bound();
                        children@[k].1.lemma_exponent_bound();
                        assert(cv[k] == child_view(children@[k]));
                        lemma_grid_order(parent.0, cv[k].0);
                        lemma_grid_order(cv[k].1, parent.1);
                        lemma_grid_order(cv[k].0, cv[k].1);
                        assert(proper_child(parent.0, parent.1, cv[k]));
                    }
                    assert forall|i: int, j: int| 0 <= i < j < cv.len() implies grid(#[trigger] cv[i].1) <= grid(#[trigger] cv[j].0) by {
                        lemma_grid_order(cv[i].1, cv[j].0);
                    }
                    lemma_square_sum_below(cv, grid(parent.0), grid(parent.1));
                }
                let mut children = children;
                let ghost taken = children@;
                while children.len() > 0
                    invariant
                        children@.len() <= taken.len(),
                        children@ == taken.subrange(0, children@.len() as int),
                        child_views(pending@) == child_views(taken.subrange(children@.len() as int, taken.len() as int)) + rest,
                    decreases children@.len(),
                {
                    let last = children.len() - 1;
                    let ghost old_children = children@;
                    let child = children.remove(last);
                    let ghost before = pending@;
                    proof {
                        assert(child == old_children[last as int]);
                        assert(old_children[last as int] == taken[last as int]);
                    }
                    pending.insert(0, child);
                    proof {
                        assert(child_views(pending@) =~= seq![child_view(child)] + child_views(before));
                        assert(child_views(taken.subrange(last as int, taken.len() as int)) =~= seq![child_view(child)] + child_views(taken.subrange(last + 1, taken.len() as int)));
                        assert(child_views(pending@) =~= child_views(taken.subrange(children@.len() as int, taken.len() as int)) + rest);
                        assert(children@ =~= taken.subrange(0, children@.len() as int));
                    }
                }
                proof {
                    assert(taken.subrange(0, taken.len() as int) =~= taken);
                    let nv = child_views(pending@);
                    assert(nv == cv + rest);
                    lemma_sums_concat(cv, rest);
                    assert(square_sum(nv) < square_sum(pv));
                    lemma_square_sum_nonnegative(nv);
                    assert forall|k: int| 0 <= k < nv.len() implies good_entry(polys, #[trigger] nv[k], gl, gu) by {
                        if k < cv.len() {
                            assert(good_entry(polys, cv[k], grid(parent.0), grid(parent.1)));
                        } else {
                            assert(nv[k] == rest[k - cv.len()]);
                            assert(rest[k - cv.len()] == pv[k - cv.len() + 1]);
                        }
                    }
                    assert forall|i: int, j: int| 0 <= i < j < nv.len() implies grid(#[trigger] nv[i].1) <= grid(#[trigger] nv[j].0) by {
                        if j < cv.len() {
                        } else if i < cv.len() {
                            assert(nv[j] == pv[j - cv.len() + 1]);
                            assert(good_entry(polys, cv[i], grid(parent.0), grid(parent.1)));
                            assert(grid(pv[0].1) <= grid(pv[j - cv.len() + 1].0));
                        } else {
                            assert(nv[i] == pv[i - cv.len() + 1]);
                            assert(nv[j] == pv[j - cv.len() + 1]);
                        }
                    }
                    assert forall|i: int, k: int|
                        0 <= i < intervals@.len() && 0 <= k < nv.len() implies grid(
                        #[trigger] enclosure_views(intervals@)[i].1,
                    ) <= grid(#[trigger] nv[k].0) by {
                        assert(grid(rv[i].1) <= grid(pv[0].0));
                        if k < cv.len() {
                            assert(good_entry(polys, cv[k], grid(parent.0), grid(parent.1)));
                        } else {
                            assert(nv[k] == pv[k - cv.len() + 1]);
                            assert(grid(rv[i].1) <= grid(pv[k - cv.len() + 1].0));
                        }
                    }
                }
            }
        }
        let mut roots: Vec<RootIsolation> = Vec::new();
        reserve_elements(&mut roots, total, AllocationResource::RootIntervals)?;
        let ghost all = enclosure_views(intervals@);
        let mut index: usize = 0;
        while intervals.len() > 0
            invariant
                all.len() == total,
                index + intervals@.len() == total,
                enclosure_views(intervals@) == all.subrange(index as int, total as int),
                roots@.len() == index,
                forall|i: int| 0 <= i < index ==> #[trigger] root_views(roots@)[i] == (i as usize, all[i]),
            decreases intervals@.len(),
        {
            let ghost old_intervals = intervals@;
            let ghost old_roots = roots@;
            let enclosure = intervals.remove(0);
            proof {
                assert(enclosure_views(old_intervals)[0] == old_intervals[0]@);
                assert(enclosure@ == all[index as int]);
            }
            roots.push(RootIsolation { index, enclosure });
            index = index + 1;
            proof {
                assert(enclosure_views(intervals@) =~= all.subrange(index as int, total as int)) by {
                    assert forall|k: int| 0 <= k < intervals@.len() implies enclosure_views(intervals@)[k] == all.subrange(index as int, total as int)[k] by {
                        assert(intervals@[k] == old_intervals[k + 1]);
                        assert(enclosure_views(old_intervals)[k + 1] == old_intervals[k + 1]@);
                    }
                }
                assert forall|i: int| 0 <= i < index implies #[trigger] root_views(roots@)[i] == (i as usize, all[i]) by {
                    if i < index - 1 {
                        assert(roots@[i] == old_roots[i]);
                        assert(root_views(old_roots)[i] == (i as usize, all[i]));
                    }
                }
            }
        }
        proof {
            let views = root_views(roots@);
            assert forall|i: int| 0 <= i < views.len() implies ({
                let (index, e) = #[trigger] views[i];
                &&& index == i
                &&& isolates_one(polys, e)
                &&& dyadic_le(lv, e.0)
                &&& dyadic_le(e.1, uv)
            }) by {
                assert(good_result(polys, all[i], gl, gu));
                lemma_grid_order(lv, all[i].0);
                lemma_grid_order(all[i].1, uv);
            }
            assert forall|i: int, j: int| 0 <= i < j < views.len() implies dyadic_le(#[trigger] views[i].1.1, #[trigger] views[j].1.0) by {
                assert(good_result(polys, all[i], gl, gu));
                assert(good_result(polys, all[j], gl, gu));
                lemma_grid_order(all[i].1, all[j].0);
            }
            assert(isolates_roots_in(polys, lv, uv, views));
        }
        Ok(roots)
    }

    /// Narrows an interval that holds one root to one of width at most `2^-bits` that
    /// holds it too, by repeated splitting; an interval without exactly one root is
    /// refused.
    pub fn refine(&self, enclosure: &DyadicEnclosure, bits: u32) -> (r: Result<
        DyadicEnclosure,
        AlgnumError,
    >)
        ensures
            match r {
                Ok(e) => isolates_one(self@, enclosure@) && isolates_one(self@, e@) && dyadic_le(
                    enclosure@.0,
                    e@.0,
                ) && dyadic_le(e@.1, enclosure@.1) && dyadic_le(
                    enclosure_width(e@),
                    dyadic_normal(1, bits as nat),
                ),
                Err(e) => refine_failure(self@, enclosure@, e),
            },
            !isolates_one(self@, enclosure@) ==> refused_as(r, AlgnumError::InvalidIsolation),
    {
        let ghost polys = self@;
        let mut lower = match enclosure.lower().try_clone() {
            Ok(v) => v,
            Err(error) => return Err(AlgnumError::Bigint(error)),
        };
        let mut upper = match enclosure.upper().try_clone() {
            Ok(v) => v,
            Err(error) => return Err(AlgnumError::Bigint(error)),
        };
        let count = match self.root_count(&lower, &upper) {
            Ok(c) => c,
            Err(error) => return Err(error),
        };
        if count != 1 {
            return Err(AlgnumError::InvalidIsolation);
        }
        let one = match BigInt::one() {
            Ok(v) => v,
            Err(error) => return Err(AlgnumError::Bigint(error)),
        };
        let target = Dyadic::new(one, bits);
        let ghost start = enclosure@;
        proof {
            lower.lemma_exponent_bound();
            upper.lemma_exponent_bound();
            lemma_grid_order(lower@, upper@);
        }
        loop
            invariant
                polys == self@,
                start == enclosure@,
                isolates_one(polys, start),
                isolates_one(polys, (lower@, upper@)),
                lower@.1 <= u32::MAX,
                upper@.1 <= u32::MAX,
                start.0.1 <= u32::MAX,
                start.1.1 <= u32::MAX,
                grid(start.0) <= grid(lower@) < grid(upper@) <= grid(start.1),
                target@ == dyadic_normal(1, bits as nat),
            decreases grid(upper@) - grid(lower@),
        {
            proof {
                lemma_grid_order(lower@, upper@);
                lemma_grid_order(start.0, lower@);
                lemma_grid_order(upper@, start.1);
            }
            let lower_copy = match lower.try_clone() {
                Ok(v) => v,
                Err(error) => return Err(AlgnumError::Bigint(error)),
            };
            let upper_copy = match upper.try_clone() {
                Ok(v) => v,
                Err(error) => return Err(AlgnumError::Bigint(error)),
            };
            let current = match DyadicEnclosure::new(lower_copy, upper_copy) {
                Ok(v) => v,
                Err(error) => return Err(AlgnumError::Bigint(error)),
            };
            let width = match current.width() {
                Ok(v) => v,
                Err(error) => return Err(AlgnumError::Bigint(error)),
            };
            if !is_greater(&width, &target) {
                return match DyadicEnclosure::new(lower, upper) {
                    Ok(v) => Ok(v),
                    Err(error) => Err(AlgnumError::Bigint(error)),
                };
            }
            let ghost parent = (lower@, upper@, 1nat);
            let mut children = match self.split_interval(lower, upper, 1) {
                Ok(c) => c,
                Err(error) => {
                    proof {
                        if error is InvalidIsolation && variations_monotone(polys, start.0, start.1) {
                            lemma_grid_order(start.0, parent.0);
                            lemma_grid_order(parent.1, start.1);
                            lemma_monotone_part(polys, start.0, start.1, parent.0, parent.1);
                        }
                    }
                    return Err(error);
                },
            };
            proof {
                assert forall|k: int| 0 <= k < child_views(children@).len() implies #[trigger] child_views(children@)[k].2 > 0 by {}
                lemma_count_sum_one(child_views(children@));
            }
            let ghost cv = child_views(children@);
            let mut index: usize = 0;
            while index < children.len()
                invariant
                    cv == child_views(children@),
                    index <= children@.len(),
                    cv.len() == 1,
                    cv[0].2 == 1,
                    forall|k: int| 0 <= k < index ==> #[trigger] children@[k].2 != 1,
                decreases children@.len() - index,
            {
                if children[index].2 == 1 {
                    break;
                }
                index = index + 1;
            }
            proof {
                assert(cv[0] == child_view(children@[0]));
            }
            if index == children.len() {
                return Err(AlgnumError::NoTargetRoot);
            }
            let child = children.remove(index);
            proof {
                assert(cv[index as int] == child_view(child));
                child.0.lemma_exponent_bound();
                child.1.lemma_exponent_bound();
                lemma_grid_order(parent.0, child.0@);
                lemma_grid_order(child.1@, parent.1);
                lemma_grid_order(child.0@, child.1@);
                assert(proper_child(parent.0, parent.1, cv[index as int]));
            }
            let (next_lower, next_upper, count) = child;
            if count != 1 {
                return Err(AlgnumError::NoTargetRoot);
            }
            lower = next_lower;
            upper = next_upper;
        }
    }

    /// The root that `[lower, upper]` holds, when it holds exactly one: its position
    /// among the real roots and the part of its canonical interval inside
    /// `[lower, upper]`. Reversed ends or an end at a root are refused as an invalid
    /// isolation; no root or several are refused as such.
    pub fn certify_root(&self, lower: Dyadic, upper: Dyadic) -> (r: Result<RootIsolation, AlgnumError>)
        ensures
            !dyadic_lt(lower@, upper@) ==> r == Err::<RootIsolation, AlgnumError>(
                AlgnumError::InvalidIsolation,
            ),
            match r {
                Ok(root) => isolates_one(self@, (lower@, upper@)) && certified_root(
                    self@,
                    lower@,
                    upper@,
                    root.index,
                    root.enclosure@,
                ),
                Err(e) => split_failure(e) || e is MultipleTargetRoots,
            },
            dyadic_lt(lower@, upper@) && (is_root_at(self@, lower@) || is_root_at(self@, upper@))
                ==> refused_as(r, AlgnumError::InvalidIsolation),
            counts_roots(self@, lower@, upper@) && variations(self@, lower@) == variations(self@, upper@)
                ==> refused_as(r, AlgnumError::NoTargetRoot),
            counts_roots(self@, lower@, upper@) && variations(self@, lower@) - variations(self@, upper@)
                >= 2 ==> refused_as(r, AlgnumError::MultipleTargetRoots),
            isolates_one(self@, (lower@, upper@)) ==> certify_outcome(self@, lower@, upper@, r),
            dyadic_lt(lower@, upper@) && !is_root_at(self@, lower@) && !is_root_at(self@, upper@)
                && !counts_roots(self@, lower@, upper@) ==> refused_as(
                r,
                AlgnumError::InvalidIsolation,
            ),
    {
        if !is_greater(&upper, &lower) {
            return Err(AlgnumError::InvalidIsolation);
        }
        if self.is_root(&lower)? || self.is_root(&upper)? {
            return Err(AlgnumError::InvalidIsolation);
        }
        let count = self.root_count(&lower, &upper)?;
        if count == 0 {
            return Err(AlgnumError::NoTargetRoot);
        }
        if count != 1 {
            return Err(AlgnumError::MultipleTargetRoots);
        }
        let roots = match self.isolate_real_roots() {
            Ok(v) => v,
            Err(error) => return Err(error),
        };
        let ghost views = root_views(roots@);
        let mut index: usize = 0;
        while index < roots.len()
            invariant
                views == root_views(roots@),
                index <= roots@.len(),
                dyadic_lt(lower@, upper@),
                isolates_one(self@, (lower@, upper@)),
                exists|l: (int, nat), u: (int, nat)|
                    #[trigger] is_nonroot_interval_from(self@, root_bound(self@[0]), l, u)
                        && isolates_roots_in(self@, l, u, views),
                forall|i: int|
                    0 <= i < index ==> !dyadic_lt(
                        #[trigger] intersect(lower@, upper@, views[i].1).0,
                        intersect(lower@, upper@, views[i].1).1,
                    ),
            decreases roots@.len() - index,
        {
            let root = &roots[index];
            let canonical_lower = root.enclosure.lower();
            let canonical_upper = root.enclosure.upper();
            proof {
                assert(views[index as int] == (root.index, root.enclosure@));
            }
            let intersection_lower = if !is_greater(canonical_lower, &lower) {
                match lower.try_clone() {
                    Ok(v) => v,
                    Err(error) => return Err(AlgnumError::Bigint(error)),
                }
            } else {
                match canonical_lower.try_clone() {
                    Ok(v) => v,
                    Err(error) => return Err(AlgnumError::Bigint(error)),
                }
            };
            let intersection_upper = if !is_greater(&upper, canonical_upper) {
                match upper.try_clone() {
                    Ok(v) => v,
                    Err(error) => return Err(AlgnumError::Bigint(error)),
                }
            } else {
                match canonical_upper.try_clone() {
                    Ok(v) => v,
                    Err(error) => return Err(AlgnumError::Bigint(error)),
                }
            };
            if is_greater(&intersection_upper, &intersection_lower) {
                let found_index = root.index;
                let enclosure = match DyadicEnclosure::new(intersection_lower, intersection_upper) {
                    Ok(v) => v,
                    Err(error) => return Err(AlgnumError::Bigint(error)),
                };
                proof {
                    let (l, u) = choose|l: (int, nat), u: (int, nat)|
                        #[trigger] is_nonroot_interval_from(self@, root_bound(self@[0]), l, u)
                            && isolates_roots_in(self@, l, u, root_views(roots@));
                    assert(views[index as int].0 == index);
                    assert(isolates_roots_in(self@, l, u, views));
                    assert(certified_root(self@, lower@, upper@, found_index, enclosure@));
                }
                return Ok(RootIsolation { index: found_index, enclosure });
            }
            index = index + 1;
        }
        proof {
            let (l, u) = choose|l: (int, nat), u: (int, nat)|
                #[trigger] is_nonroot_interval_from(self@, root_bound(self@[0]), l, u)
                    && isolates_roots_in(self@, l, u, views);
            assert(misses_isolated_roots(self@, lower@, upper@));
        }
        Err(AlgnumError::NoTargetRoot)
    }
}

} // verus!
