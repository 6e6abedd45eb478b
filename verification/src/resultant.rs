//! Resultants of polynomials whose coefficients are integer polynomials, by the
//! Leibniz formula for the determinant of the Sylvester matrix.
use crate::algnum_error::{reserve_elements, AlgnumError, AllocationResource, RepresentationResource};
use crate::integer::BigInt;
use crate::natural::BigUint;
use crate::polynomial::{
    coef, conv, int_values, is_trimmed, lemma_coef_poly_mul, lemma_coef_trim, lemma_conv_extra_terms,
    poly_mul, trim_int, Polynomial,
};
use vstd::arithmetic::power::pow;
use vstd::prelude::*;

verus! {

// ---------------------------------------------------------------------------
// Permutations in lexicographic order
// ---------------------------------------------------------------------------

/// Some entry of `s` is smaller than the one after it.
pub open spec fn has_ascent(s: Seq<usize>) -> bool {
    exists|i: int| 0 <= i && i + 1 < s.len() && #[trigger] s[i] < s[i + 1]
}

/// `i` is the last position whose entry is smaller than the one after it.
pub open spec fn is_last_ascent(s: Seq<usize>, i: int) -> bool {
    &&& 0 <= i && i + 1 < s.len()
    &&& s[i] < s[i + 1]
    &&& forall|j: int| i < j && j + 1 < s.len() ==> #[trigger] s[j] >= s[j + 1]
}

/// `j` is the last position after `i` whose entry exceeds the one at `i`.
pub open spec fn is_last_above(s: Seq<usize>, i: int, j: int) -> bool {
    &&& 0 <= i < j < s.len()
    &&& s[j] > s[i]
    &&& forall|k: int| j < k < s.len() ==> #[trigger] s[k] <= s[i]
}

/// `s` with the entries at `i` and `j` exchanged and the part after `i` reversed.
pub open spec fn swap_and_reverse(s: Seq<usize>, i: int, j: int) -> Seq<usize> {
    let t = s.update(i, s[j]).update(j, s[i]);
    t.subrange(0, i + 1) + t.subrange(i + 1, s.len() as int).reverse()
}

/// The next permutation in lexicographic order; none after the last one.
pub open spec fn next_permutation_of(s: Seq<usize>) -> Option<Seq<usize>> {
    if has_ascent(s) {
        let i = choose|i: int| is_last_ascent(s, i);
        let j = choose|j: int| is_last_above(s, i, j);
        Some(swap_and_reverse(s, i, j))
    } else {
        None
    }
}

/// The value of `p` read as the digits of a number in base `n`, most significant first.
pub open spec fn digit_value(p: Seq<usize>, n: nat) -> int
    decreases p.len(),
{
    if p.len() == 0 {
        0
    } else {
        p[0] * pow(n as int, (p.len() - 1) as nat) + digit_value(p.drop_first(), n)
    }
}

/// Every entry of `p` is below `n`, and `p` has `n` entries.
pub open spec fn digits_below(p: Seq<usize>, n: nat) -> bool {
    p.len() == n && forall|i: int| 0 <= i < p.len() ==> #[trigger] p[i] < n
}

/// The identity permutation of `0..n`.
pub open spec fn identity_permutation(n: nat) -> Seq<usize> {
    Seq::new(n, |i: int| i as usize)
}

proof fn lemma_last_ascent_unique(s: Seq<usize>, i: int, k: int)
    requires
        is_last_ascent(s, i),
        is_last_ascent(s, k),
    ensures
        i == k,
{
    if i < k {
        assert(s[k] >= s[k + 1]);
    }
    if k < i {
        assert(s[i] >= s[i + 1]);
    }
}

proof fn lemma_last_above_unique(s: Seq<usize>, i: int, j: int, k: int)
    requires
        is_last_above(s, i, j),
        is_last_above(s, i, k),
    ensures
        j == k,
{
    if j < k {
        assert(s[k] <= s[i]);
    }
    if k < j {
        assert(s[j] <= s[i]);
    }
}

proof fn lemma_last_ascent_exists(s: Seq<usize>, i: int)
    requires
        0 <= i && i + 1 < s.len(),
        s[i] < s[i + 1],
    ensures
        exists|k: int| is_last_ascent(s, k),
    decreases s.len() - i,
{
    if exists|j: int| i < j && j + 1 < s.len() && #[trigger] s[j] < s[j + 1] {
        let j = choose|j: int| i < j && j + 1 < s.len() && #[trigger] s[j] < s[j + 1];
        lemma_last_ascent_exists(s, j);
    } else {
        assert(is_last_ascent(s, i));
    }
}

proof fn lemma_last_above_exists(s: Seq<usize>, i: int, j: int)
    requires
        0 <= i < j < s.len(),
        s[j] > s[i],
    ensures
        exists|k: int| is_last_above(s, i, k),
    decreases s.len() - j,
{
    if exists|k: int| j < k < s.len() && #[trigger] s[k] > s[i] {
        let k = choose|k: int| j < k < s.len() && #[trigger] s[k] > s[i];
        lemma_last_above_exists(s, i, k);
    } else {
        assert(is_last_above(s, i, j));
    }
}

/// The digit value of entries below `n` is below `n` to the number of entries.
proof fn lemma_digit_value_bound(p: Seq<usize>, n: nat)
    requires
        forall|i: int| 0 <= i < p.len() ==> #[trigger] p[i] < n,
    ensures
        0 <= digit_value(p, n) < pow(n as int, p.len()),
    decreases p.len(),
{
    reveal(pow);
    if p.len() > 0 {
        assert(p[0] < n);
        let rest = p.drop_first();
        assert forall|i: int| 0 <= i < rest.len() implies #[trigger] rest[i] < n by {
            assert(rest[i] == p[i + 1]);
        }
        lemma_digit_value_bound(rest, n);
        let e = (p.len() - 1) as nat;
        let q = pow(n as int, e);
        vstd::arithmetic::power::lemma_pow_positive(n as int, e);
        assert(pow(n as int, p.len()) == n * q);
        let d = p[0] as int;
        assert(0 <= d * q <= (n - 1) * q) by (nonlinear_arith)
            requires
                0 <= d <= n - 1,
                q > 0,
        ;
        assert((n - 1) * q + q == n * q) by (nonlinear_arith);
    }
}

/// Of two digit sequences that agree before `k` and differ upward at `k`, the second
/// has the larger value.
proof fn lemma_digit_value_increases(s: Seq<usize>, t: Seq<usize>, n: nat, k: int)
    requires
        s.len() == t.len(),
        0 <= k < s.len(),
        forall|i: int| 0 <= i < s.len() ==> #[trigger] s[i] < n,
        forall|i: int| 0 <= i < t.len() ==> #[trigger] t[i] < n,
        forall|i: int| 0 <= i < k ==> #[trigger] s[i] == t[i],
        s[k] < t[k],
    ensures
        digit_value(s, n) < digit_value(t, n),
    decreases k,
{
    reveal(pow);
    let e = (s.len() - 1) as nat;
    let q = pow(n as int, e);
    let rs = s.drop_first();
    let rt = t.drop_first();
    assert forall|i: int| 0 <= i < rs.len() implies #[trigger] rs[i] < n by {
        assert(rs[i] == s[i + 1]);
    }
    assert forall|i: int| 0 <= i < rt.len() implies #[trigger] rt[i] < n by {
        assert(rt[i] == t[i + 1]);
    }
    if k == 0 {
        lemma_digit_value_bound(rs, n);
        lemma_digit_value_bound(rt, n);
        let a = s[0] as int;
        let b = t[0] as int;
        assert(a * q + q <= b * q) by (nonlinear_arith)
            requires
                a + 1 <= b,
                q >= 0,
        ;
    } else {
        assert forall|i: int| 0 <= i < k - 1 implies #[trigger] rs[i] == rt[i] by {
            assert(rs[i] == s[i + 1]);
            assert(rt[i] == t[i + 1]);
        }
        assert(s[0] == t[0]);
        lemma_digit_value_increases(rs, rt, n, k - 1);
    }
}

/// The next permutation keeps the entries below `n` and has a larger digit value.
pub proof fn lemma_next_permutation_advances(p: Seq<usize>, n: nat)
    requires
        digits_below(p, n),
        next_permutation_of(p) is Some,
    ensures
        digits_below(next_permutation_of(p)->0, n),
        digit_value(p, n) < digit_value(next_permutation_of(p)->0, n),
        digit_value(next_permutation_of(p)->0, n) < pow(n as int, n),
{
    let a = choose|a: int| 0 <= a && a + 1 < p.len() && #[trigger] p[a] < p[a + 1];
    lemma_last_ascent_exists(p, a);
    let i = choose|i: int| is_last_ascent(p, i);
    assert(is_last_ascent(p, i));
    lemma_last_above_exists(p, i, i + 1);
    let j = choose|j: int| is_last_above(p, i, j);
    assert(is_last_above(p, i, j));
    let q = swap_and_reverse(p, i, j);
    let t = p.update(i, p[j]).update(j, p[i]);
    assert forall|x: int| 0 <= x < t.len() implies #[trigger] t[x] < n by {
        if x != i && x != j {
            assert(t[x] == p[x]);
        }
    }
    assert forall|k: int| 0 <= k < q.len() implies #[trigger] q[k] < n by {
        if k <= i {
            assert(q[k] == t[k]);
        } else {
            let x = p.len() - 1 - (k - (i + 1));
            assert(q[k] == t[x]);
            assert(t[x] < n);
        }
    }
    assert forall|k: int| 0 <= k < i implies #[trigger] p[k] == q[k] by {
        assert(q[k] == t[k]);
    }
    assert(q[i] == p[j]);
    lemma_digit_value_increases(p, q, n, i);
    lemma_digit_value_bound(q, n);
}

/// Reverses the entries from position `start` on.
fn reverse_from(values: &mut Vec<usize>, start: usize)
    requires
        start <= old(values)@.len(),
    ensures
        final(values)@ == old(values)@.subrange(0, start as int) + old(values)@.subrange(
            start as int,
            old(values)@.len() as int,
        ).reverse(),
{
    let ghost t = values@;
    let len = values.len();
    let ghost target = t.subrange(0, start as int) + t.subrange(start as int, len as int).reverse();
    if len == 0 {
        proof {
            assert(values@ =~= target);
        }
        return;
    }
    let mut low = start;
    let mut high = len - 1;
    while low < high
        invariant
            values@.len() == len,
            t.len() == len,
            target.len() == len,
            target == t.subrange(0, start as int) + t.subrange(start as int, len as int).reverse(),
            start <= low,
            high < len,
            low + high == start + len - 1,
            forall|x: int| 0 <= x < low ==> #[trigger] values@[x] == target[x],
            forall|x: int| high < x < len ==> #[trigger] values@[x] == target[x],
            forall|x: int| low <= x <= high ==> #[trigger] values@[x] == t[x],
        decreases high + 1 - low,
    {
        let a = values[low];
        let b = values[high];
        values.set(low, b);
        values.set(high, a);
        proof {
            assert(target[low as int] == t[high as int]);
            assert(target[high as int] == t[low as int]);
        }
        low = low + 1;
        high = high - 1;
    }
    proof {
        assert forall|x: int| 0 <= x < len implies #[trigger] values@[x] == target[x] by {
            if low <= x <= high {
                assert(x == low);
            }
            if x < start {
                assert(target[x] == t[x]);
            }
        }
        assert(values@ =~= target);
    }
}

/// Moves `values` to the next permutation in lexicographic order and says whether there
/// was one; after the last permutation the values are left unchanged.
pub fn next_permutation(values: &mut Vec<usize>) -> (r: bool)
    ensures
        r == next_permutation_of(old(values)@) is Some,
        r ==> final(values)@ == next_permutation_of(old(values)@)->0,
        !r ==> final(values)@ == old(values)@,
{
    let len = values.len();
    if len < 2 {
        proof {
            assert(!has_ascent(values@));
        }
        return false;
    }
    let mut pivot = len - 2;
    while values[pivot] >= values[pivot + 1]
        invariant
            len == values@.len(),
            len >= 2,
            pivot + 1 < len,
            forall|j: int| pivot < j && j + 1 < len ==> #[trigger] values@[j] >= values@[j + 1],
        decreases pivot,
    {
        if pivot == 0 {
            proof {
                assert forall|i: int| 0 <= i && i + 1 < values@.len() implies !(#[trigger] values@[i]
                    < values@[i + 1]) by {
                    if i > 0 {
                        assert(values@[i] >= values@[i + 1]);
                    }
                }
            }
            return false;
        }
        pivot = pivot - 1;
    }
    let ghost s = values@;
    proof {
        assert(is_last_ascent(s, pivot as int));
        assert(has_ascent(s));
    }
    let mut successor = len - 1;
    while values[successor] <= values[pivot]
        invariant
            values@ == s,
            len == s.len(),
            pivot < successor < len,
            is_last_ascent(s, pivot as int),
            forall|k: int| successor < k < len ==> #[trigger] s[k] <= s[pivot as int],
        decreases successor,
    {
        successor = successor - 1;
    }
    proof {
        assert(is_last_above(s, pivot as int, successor as int));
        let i = choose|i: int| is_last_ascent(s, i);
        lemma_last_ascent_unique(s, i, pivot as int);
        let j = choose|j: int| is_last_above(s, pivot as int, j);
        lemma_last_above_unique(s, pivot as int, j, successor as int);
    }
    let low_value = values[pivot];
    let high_value = values[successor];
    values.set(pivot, high_value);
    values.set(successor, low_value);
    proof {
        assert(values@ == s.update(pivot as int, s[successor as int]).update(
            successor as int,
            s[pivot as int],
        ));
    }
    reverse_from(values, pivot + 1);
    proof {
        assert(values@ =~= swap_and_reverse(s, pivot as int, successor as int));
    }
    true
}

/// The number of pairs of positions whose entries are out of order, among the first `m`
/// positions on the left.
pub open spec fn inversions_before(p: Seq<usize>, m: int) -> int
    decreases m,
{
    if m <= 0 {
        0
    } else {
        inversions_before(p, m - 1) + inversions_at(p, m - 1, p.len() as int)
    }
}

/// The number of positions after `left` and before `end` whose entry is smaller than the
/// one at `left`.
pub open spec fn inversions_at(p: Seq<usize>, left: int, end: int) -> int
    decreases end - left,
{
    if end <= left + 1 {
        0
    } else {
        inversions_at(p, left, end - 1) + if p[left] > p[end - 1] {
            1int
        } else {
            0int
        }
    }
}

/// The number of inversions of `p`.
pub open spec fn inversion_count(p: Seq<usize>) -> int {
    inversions_before(p, p.len() as int)
}

/// Whether the permutation has an odd number of inversions.
pub fn inversion_is_odd(permutation: &Vec<usize>) -> (r: bool)
    ensures
        r == (inversion_count(permutation@) % 2 == 1),
{
    let ghost p = permutation@;
    let len = permutation.len();
    let mut odd = false;
    let mut left: usize = 0;
    while left < len
        invariant
            p == permutation@,
            len == p.len(),
            left <= len,
            odd == (inversions_before(p, left as int) % 2 == 1),
        decreases len - left,
    {
        let mut right = left + 1;
        let ghost before = inversions_before(p, left as int);
        while right < len
            invariant
                p == permutation@,
                len == p.len(),
                left < len,
                left + 1 <= right <= len,
                odd == ((before + inversions_at(p, left as int, right as int)) % 2 == 1),
            decreases len - right,
        {
            if permutation[left] > permutation[right] {
                odd = !odd;
            }
            right = right + 1;
        }
        left = left + 1;
    }
    odd
}

// ---------------------------------------------------------------------------
// Terms of the Leibniz formula
// ---------------------------------------------------------------------------

/// The coefficient sequences of a sequence of integer polynomials.
pub open spec fn poly_views(s: Seq<Polynomial>) -> Seq<Seq<int>> {
    Seq::new(s.len(), |i: int| s[i]@)
}

/// The entry in row `row` and column `column` of a square matrix of dimension `n`
/// stored row after row.
pub open spec fn entry(m: Seq<Seq<int>>, n: nat, row: int, column: int) -> Seq<int> {
    m[row * n + column]
}

/// The product of the entries that `p` chooses in the rows from `row` on.
pub open spec fn term_from(m: Seq<Seq<int>>, n: nat, p: Seq<usize>, row: nat) -> Seq<int>
    decreases n - row,
{
    if row >= n {
        seq![1int]
    } else {
        poly_mul(entry(m, n, row as int, p[row as int] as int), term_from(m, n, p, row + 1))
    }
}

/// Every entry that `p` chooses in the rows from `row` on is nonzero.
pub open spec fn entries_nonzero_from(m: Seq<Seq<int>>, n: nat, p: Seq<usize>, row: nat) -> bool {
    forall|r: int| row <= r < n ==> #[trigger] entry(m, n, r, p[r] as int).len() > 0
}

/// The sum of the degrees of the entries that `p` chooses in the rows from `row` on.
pub open spec fn degree_sum_from(m: Seq<Seq<int>>, n: nat, p: Seq<usize>, row: nat) -> int
    decreases n - row,
{
    if row >= n {
        0
    } else {
        (entry(m, n, row as int, p[row as int] as int).len() - 1) + degree_sum_from(
            m,
            n,
            p,
            row + 1,
        )
    }
}

/// The number of coefficients that the term of `p` is given room for: its degree bound
/// plus one, or zero when one of its entries is zero.
pub open spec fn term_count(m: Seq<Seq<int>>, n: nat, p: Seq<usize>) -> int {
    if entries_nonzero_from(m, n, p, 0) {
        degree_sum_from(m, n, p, 0) + 1
    } else {
        0
    }
}

/// The term is trimmed; it has at most as many coefficients as its degree bound plus one,
/// and none when one of its entries is zero.
proof fn lemma_term_shape(m: Seq<Seq<int>>, n: nat, p: Seq<usize>, row: nat)
    requires
        row <= n,
    ensures
        is_trimmed(term_from(m, n, p, row)),
        entries_nonzero_from(m, n, p, row) ==> term_from(m, n, p, row).len() <= degree_sum_from(
            m,
            n,
            p,
            row,
        ) + 1,
        !entries_nonzero_from(m, n, p, row) ==> term_from(m, n, p, row).len() == 0,
    decreases n - row,
{
    if row < n {
        lemma_term_shape(m, n, p, row + 1);
        let a = entry(m, n, row as int, p[row as int] as int);
        let b = term_from(m, n, p, row + 1);
        if a.len() > 0 && b.len() > 0 {
            crate::polynomial::lemma_trim_int(
                Seq::new((a.len() + b.len() - 1) as nat, |j: int| conv(a, b, j, a.len())),
            );
        }
        if !entries_nonzero_from(m, n, p, row) {
            if a.len() > 0 {
                let r = choose|r: int| row <= r < n && !(#[trigger] entry(m, n, r, p[r] as int).len()
                    > 0);
                assert(row + 1 <= r);
                assert(!entries_nonzero_from(m, n, p, row + 1));
            }
        } else {
            assert(entries_nonzero_from(m, n, p, row + 1));
            assert(entry(m, n, row as int, p[row as int] as int).len() > 0);
        }
    }
}

/// A trimmed sequence that agrees with `s` on the coefficients of `s`, and is not longer,
/// is the trimming of `s`.
proof fn lemma_trim_to(s: Seq<int>, t: Seq<int>)
    requires
        is_trimmed(t),
        t.len() <= s.len(),
        forall|k: int| 0 <= k < s.len() ==> #[trigger] s[k] == coef(t, k),
    ensures
        trim_int(s) == t,
{
    assert forall|i: int| t.len() <= i < s.len() implies s[i] == 0 by {
        assert(s[i] == coef(t, i));
    }
    if t.len() > 0 {
        assert(s[t.len() - 1] == coef(t, t.len() - 1));
    }
    crate::polynomial::lemma_trim_exact(s, t.len());
    assert(s.subrange(0, t.len() as int) =~= t) by {
        assert forall|i: int| 0 <= i < t.len() implies s.subrange(0, t.len() as int)[i] == t[i] by {
            assert(s[i] == coef(t, i));
        }
    }
}

/// The number of coefficients of a polynomial of degree `degree`, if it fits in `usize`.
fn coefficient_count_from_degree(degree: &BigUint) -> (r: Result<usize, AlgnumError>)
    ensures
        match r {
            Ok(count) => count == degree@ + 1,
            Err(e) => resultant_failure(e) && (degree@ + 1 > usize::MAX || !(
            e is RepresentationLimit)),
        },
{
    let one = match BigUint::one() {
        Ok(value) => value,
        Err(error) => return Err(AlgnumError::Bigint(error)),
    };
    let required = match degree.add(&one) {
        Ok(value) => value,
        Err(error) => return Err(AlgnumError::Bigint(error)),
    };
    let maximum = match BigUint::try_from(usize::MAX) {
        Ok(value) => value,
        Err(error) => return Err(AlgnumError::Bigint(error)),
    };
    if maximum.less_than(&required) {
        return Err(
            AlgnumError::RepresentationLimit {
                resource: RepresentationResource::CoefficientCount,
                required,
                maximum,
            },
        );
    }
    Ok(required.to_usize_within())
}

/// A failure of resultant arithmetic: of the integer layer, of an allocation, or of a
/// size that does not fit in `usize`.
pub open spec fn resultant_failure(e: AlgnumError) -> bool {
    ||| e matches AlgnumError::Bigint(b) && (b is AllocationFailure || b is CapacityOverflow)
    ||| e is AllocationFailure
    ||| e is RepresentationLimit
}

/// Coefficient `target` of the product of the entries that `permutation` chooses in the
/// rows from `row` on.
fn determinant_term_coefficient(
    matrix: &[Polynomial],
    dimension: usize,
    permutation: &[usize],
    row: usize,
    target: usize,
) -> (r: Result<BigInt, AlgnumError>)
    requires
        matrix@.len() == dimension * dimension,
        digits_below(permutation@, dimension as nat),
        row <= dimension,
    ensures
        match r {
            Ok(v) => v@ == coef(
                term_from(poly_views(matrix@), dimension as nat, permutation@, row as nat),
                target as int,
            ),
            Err(e) => resultant_failure(e),
        },
    decreases dimension - row,
{
    let ghost m = poly_views(matrix@);
    let ghost n = dimension as nat;
    if row == dimension {
        return if target == 0 {
            match BigInt::one() {
                Ok(value) => Ok(value),
                Err(error) => Err(AlgnumError::Bigint(error)),
            }
        } else {
            Ok(BigInt::zero())
        };
    }
    let column = permutation[row];
    let total = matrix.len();
    proof {
        assert(permutation@[row as int] < dimension);
        assert(row * dimension + column < dimension * dimension) by (nonlinear_arith)
            requires
                row < dimension,
                column < dimension,
        ;
        assert(0 <= row * dimension) by (nonlinear_arith);
    }
    let slot = row * dimension + column;
    let polynomial = &matrix[slot];
    let ghost a = polynomial@;
    let ghost b = term_from(m, n, permutation@, (row + 1) as nat);
    proof {
        assert(a == entry(m, n, row as int, column as int));
    }
    let coefficients = polynomial.coefficients();
    let mut sum = BigInt::zero();
    let mut power: usize = 0;
    while power < coefficients.len() && power <= target
        invariant
            crate::polynomial::int_values(coefficients@) == a,
            matrix@.len() == dimension * dimension,
            digits_below(permutation@, dimension as nat),
            row < dimension,
            m == poly_views(matrix@),
            n == dimension as nat,
            b == term_from(m, n, permutation@, (row + 1) as nat),
            power <= coefficients@.len(),
            power <= target + 1,
            sum@ == conv(a, b, target as int, power as nat),
        decreases coefficients@.len() - power,
    {
        let suffix = determinant_term_coefficient(
            matrix,
            dimension,
            permutation,
            row + 1,
            target - power,
        )?;
        let product = match coefficients[power].mul(&suffix) {
            Ok(value) => value,
            Err(error) => return Err(AlgnumError::Bigint(error)),
        };
        sum = match sum.add(&product) {
            Ok(value) => value,
            Err(error) => return Err(AlgnumError::Bigint(error)),
        };
        proof {
            assert(coef(a, power as int) == coefficients@[power as int]@);
        }
        power = power + 1;
    }
    proof {
        assert forall|i: int| power <= i < a.len() implies #[trigger] coef(b, target - i) == 0 by {}
        lemma_conv_extra_terms(a, b, target as int, power as nat, a.len());
        lemma_coef_poly_mul(a, b, target as int);
    }
    Ok(sum)
}


/// Room for the `slot` of row `row` and column `column`: inside a square matrix of
/// dimension `dimension`.
proof fn lemma_slot_in_matrix(row: int, column: int, dimension: int)
    requires
        0 <= row < dimension,
        0 <= column < dimension,
    ensures
        0 <= row * dimension,
        row * dimension + column < dimension * dimension,
{
    assert(row * dimension + column < dimension * dimension) by (nonlinear_arith)
        requires
            0 <= row < dimension,
            0 <= column < dimension,
    ;
    assert(0 <= row * dimension) by (nonlinear_arith)
        requires
            0 <= row,
            0 <= dimension,
    ;
}

/// The product of the entries that `permutation` chooses, one in each row.
fn determinant_term(matrix: &[Polynomial], dimension: usize, permutation: &[usize]) -> (r: Result<
    Polynomial,
    AlgnumError,
>)
    requires
        matrix@.len() == dimension * dimension,
        digits_below(permutation@, dimension as nat),
    ensures
        match r {
            Ok(v) => v@ == term_from(poly_views(matrix@), dimension as nat, permutation@, 0),
            Err(e) => resultant_failure(e),
        },
{
    let ghost m = poly_views(matrix@);
    let ghost n = dimension as nat;
    let ghost p = permutation@;
    let total = matrix.len();
    let mut degree = BigUint::zero();
    let mut row: usize = 0;
    while row < dimension
        invariant
            matrix@.len() == dimension * dimension,
            total == matrix@.len(),
            digits_below(permutation@, dimension as nat),
            m == poly_views(matrix@),
            n == dimension as nat,
            p == permutation@,
            row <= dimension,
            degree@ + degree_sum_from(m, n, p, row as nat) == degree_sum_from(m, n, p, 0),
            forall|r: int| 0 <= r < row ==> #[trigger] entry(m, n, r, p[r] as int).len() > 0,
        decreases dimension - row,
    {
        let column = permutation[row];
        proof {
            lemma_slot_in_matrix(row as int, column as int, dimension as int);
        }
        let slot = row * dimension + column;
        let element = &matrix[slot];
        proof {
            assert(element@ == entry(m, n, row as int, column as int));
        }
        if element.is_zero() {
            proof {
                lemma_term_shape(m, n, p, 0);
                assert(!entries_nonzero_from(m, n, p, 0));
            }
            return Ok(Polynomial::zero());
        }
        let element_degree = match element.degree() {
            Some(value) => value,
            None => 0,
        };
        let step = match BigUint::try_from(element_degree) {
            Ok(value) => value,
            Err(error) => return Err(AlgnumError::Bigint(error)),
        };
        degree = match degree.add(&step) {
            Ok(value) => value,
            Err(error) => return Err(AlgnumError::Bigint(error)),
        };
        proof {
            assert(degree_sum_from(m, n, p, row as nat) == (element@.len() - 1) + degree_sum_from(
                m,
                n,
                p,
                (row + 1) as nat,
            ));
        }
        row = row + 1;
    }
    let count = coefficient_count_from_degree(&degree)?;
    let ghost term = term_from(m, n, p, 0);
    proof {
        assert(entries_nonzero_from(m, n, p, 0));
        lemma_term_shape(m, n, p, 0);
    }
    let mut coefficients: Vec<BigInt> = Vec::new();
    reserve_elements(&mut coefficients, count, AllocationResource::ResultantCoefficients)?;
    let mut target: usize = 0;
    while target < count
        invariant
            matrix@.len() == dimension * dimension,
            digits_below(permutation@, dimension as nat),
            m == poly_views(matrix@),
            n == dimension as nat,
            p == permutation@,
            term == term_from(m, n, p, 0),
            target <= count,
            coefficients@.len() == target,
            forall|k: int| 0 <= k < target ==> #[trigger] coefficients@[k]@ == coef(term, k),
        decreases count - target,
    {
        let value = determinant_term_coefficient(matrix, dimension, permutation, 0, target)?;
        coefficients.push(value);
        target = target + 1;
    }
    proof {
        let values = int_values(coefficients@);
        assert forall|k: int| 0 <= k < values.len() implies #[trigger] values[k] == coef(term, k) by {
            assert(values[k] == coefficients@[k]@);
        }
        lemma_trim_to(values, term);
    }
    Ok(Polynomial::from_coefficients(coefficients))
}

/// The largest term count along the permutations from `p` on, in lexicographic order.
pub open spec fn orbit_count(m: Seq<Seq<int>>, n: nat, p: Seq<usize>) -> int
    decreases pow(n as int, n) - digit_value(p, n),
    when digits_below(p, n)
{
    match next_permutation_of(p) {
        Some(q) => {
            proof {
                lemma_next_permutation_advances(p, n);
            }
            let rest = orbit_count(m, n, q);
            if term_count(m, n, p) >= rest {
                term_count(m, n, p)
            } else {
                rest
            }
        },
        None => term_count(m, n, p),
    }
}

/// Coefficient `k` of the term of `p`, with the sign of `p`.
pub open spec fn signed_coef(m: Seq<Seq<int>>, n: nat, p: Seq<usize>, k: int) -> int {
    if inversion_count(p) % 2 == 1 {
        -coef(term_from(m, n, p, 0), k)
    } else {
        coef(term_from(m, n, p, 0), k)
    }
}

/// Coefficient `k` of the sum of the signed terms of the permutations from `p` on, in
/// lexicographic order: from the identity, the Leibniz formula of the determinant.
pub open spec fn leibniz_coef(m: Seq<Seq<int>>, n: nat, p: Seq<usize>, k: int) -> int
    decreases pow(n as int, n) - digit_value(p, n),
    when digits_below(p, n)
{
    match next_permutation_of(p) {
        Some(q) => {
            proof {
                lemma_next_permutation_advances(p, n);
            }
            signed_coef(m, n, p, k) + leibniz_coef(m, n, q, k)
        },
        None => signed_coef(m, n, p, k),
    }
}

/// The term counts are not negative, and the term of `p` has no coefficient at or past
/// its count.
proof fn lemma_term_count(m: Seq<Seq<int>>, n: nat, p: Seq<usize>)
    ensures
        term_count(m, n, p) >= 0,
        term_from(m, n, p, 0).len() <= term_count(m, n, p),
    decreases n,
{
    lemma_term_shape(m, n, p, 0);
    if entries_nonzero_from(m, n, p, 0) {
        lemma_degree_sum_nonnegative(m, n, p, 0);
    }
}

proof fn lemma_degree_sum_nonnegative(m: Seq<Seq<int>>, n: nat, p: Seq<usize>, row: nat)
    requires
        entries_nonzero_from(m, n, p, row),
    ensures
        degree_sum_from(m, n, p, row) >= 0,
    decreases n - row,
{
    if row < n {
        assert(entry(m, n, row as int, p[row as int] as int).len() > 0);
        assert(entries_nonzero_from(m, n, p, row + 1));
        lemma_degree_sum_nonnegative(m, n, p, row + 1);
    }
}

/// No signed term from `p` on has a coefficient at or past the largest term count.
proof fn lemma_leibniz_vanishes(m: Seq<Seq<int>>, n: nat, p: Seq<usize>, k: int)
    requires
        digits_below(p, n),
        k >= orbit_count(m, n, p),
    ensures
        leibniz_coef(m, n, p, k) == 0,
    decreases pow(n as int, n) - digit_value(p, n),
{
    lemma_term_count(m, n, p);
    assert(coef(term_from(m, n, p, 0), k) == 0);
    match next_permutation_of(p) {
        Some(q) => {
            lemma_next_permutation_advances(p, n);
            lemma_leibniz_vanishes(m, n, q, k);
        },
        None => {},
    }
}

/// The term count of `p` and the largest count after it are at most the largest count
/// from `p` on.
proof fn lemma_orbit_count_step(m: Seq<Seq<int>>, n: nat, p: Seq<usize>)
    requires
        digits_below(p, n),
    ensures
        term_count(m, n, p) <= orbit_count(m, n, p),
        next_permutation_of(p) is Some ==> orbit_count(m, n, next_permutation_of(p)->0)
            <= orbit_count(m, n, p),
        next_permutation_of(p) is Some ==> orbit_count(m, n, p) == (if term_count(m, n, p)
            >= orbit_count(m, n, next_permutation_of(p)->0) {
            term_count(m, n, p)
        } else {
            orbit_count(m, n, next_permutation_of(p)->0)
        }),
        next_permutation_of(p) is None ==> orbit_count(m, n, p) == term_count(m, n, p),
{
    match next_permutation_of(p) {
        Some(q) => {
            lemma_next_permutation_advances(p, n);
        },
        None => {},
    }
}


/// The degree bound of the term of `permutation` and whether all of its entries are
/// nonzero; the bound is meaningful only when they are.
fn term_degree(matrix: &[Polynomial], dimension: usize, permutation: &[usize]) -> (r: Result<
    (BigUint, bool),
    AlgnumError,
>)
    requires
        matrix@.len() == dimension * dimension,
        digits_below(permutation@, dimension as nat),
    ensures
        match r {
            Ok((degree, nonzero)) => nonzero == entries_nonzero_from(
                poly_views(matrix@),
                dimension as nat,
                permutation@,
                0,
            ) && (nonzero ==> degree@ == degree_sum_from(
                poly_views(matrix@),
                dimension as nat,
                permutation@,
                0,
            )),
            Err(e) => resultant_failure(e),
        },
{
    let ghost m = poly_views(matrix@);
    let ghost n = dimension as nat;
    let ghost p = permutation@;
    let total = matrix.len();
    let mut degree = BigUint::zero();
    let mut nonzero = true;
    let mut row: usize = 0;
    while row < dimension && nonzero
        invariant
            matrix@.len() == dimension * dimension,
            total == matrix@.len(),
            digits_below(permutation@, dimension as nat),
            m == poly_views(matrix@),
            n == dimension as nat,
            p == permutation@,
            row <= dimension,
            nonzero ==> degree@ + degree_sum_from(m, n, p, row as nat) == degree_sum_from(m, n, p, 0),
            nonzero ==> forall|r: int| 0 <= r < row ==> #[trigger] entry(m, n, r, p[r] as int).len()
                > 0,
            !nonzero ==> !entries_nonzero_from(m, n, p, 0),
        decreases dimension - row + if nonzero {
            1int
        } else {
            0int
        },
    {
        let column = permutation[row];
        proof {
            lemma_slot_in_matrix(row as int, column as int, dimension as int);
        }
        let slot = row * dimension + column;
        let element = &matrix[slot];
        proof {
            assert(element@ == entry(m, n, row as int, column as int));
        }
        match element.degree() {
            None => {
                nonzero = false;
            },
            Some(element_degree) => {
                let step = match BigUint::try_from(element_degree) {
                    Ok(value) => value,
                    Err(error) => return Err(AlgnumError::Bigint(error)),
                };
                degree = match degree.add(&step) {
                    Ok(value) => value,
                    Err(error) => return Err(AlgnumError::Bigint(error)),
                };
                proof {
                    assert(degree_sum_from(m, n, p, row as nat) == (element@.len() - 1)
                        + degree_sum_from(m, n, p, (row + 1) as nat));
                }
                row = row + 1;
            },
        }
    }
    Ok((degree, nonzero))
}

/// The number of coefficients of the largest term over all permutations visited from the
/// identity; the permutation is the identity again afterwards.
fn determinant_sum_coefficient_count(
    matrix: &[Polynomial],
    dimension: usize,
    permutation: &mut Vec<usize>,
) -> (r: Result<usize, AlgnumError>)
    requires
        matrix@.len() == dimension * dimension,
        old(permutation)@ == identity_permutation(dimension as nat),
    ensures
        match r {
            Ok(count) => count == orbit_count(
                poly_views(matrix@),
                dimension as nat,
                identity_permutation(dimension as nat),
            ) && final(permutation)@ == identity_permutation(dimension as nat),
            Err(e) => resultant_failure(e),
        },
{
    let ghost m = poly_views(matrix@);
    let ghost n = dimension as nat;
    let ghost start = identity_permutation(n);
    let mut maximum_degree = BigUint::zero();
    let mut found = false;
    proof {
        assert(digits_below(start, n));
        lemma_digit_value_bound(start, n);
        lemma_orbit_count_step(m, n, start);
        lemma_term_count(m, n, start);
    }
    loop
        invariant_except_break
            0 <= digit_value(permutation@, n) < pow(n as int, n),
            (if found {
                if maximum_degree@ + 1 >= orbit_count(m, n, permutation@) {
                    (maximum_degree@ + 1) as int
                } else {
                    orbit_count(m, n, permutation@)
                }
            } else {
                orbit_count(m, n, permutation@)
            }) == orbit_count(m, n, start),
        invariant
            matrix@.len() == dimension * dimension,
            m == poly_views(matrix@),
            n == dimension as nat,
            start == identity_permutation(n),
            digits_below(permutation@, n),
            digits_below(start, n),
        ensures
            (if found {
                (maximum_degree@ + 1) as int
            } else {
                0int
            }) == orbit_count(m, n, start),
        decreases pow(n as int, n) - digit_value(permutation@, n),
    {
        let ghost p = permutation@;
        let (degree, nonzero) = term_degree(matrix, dimension, permutation.as_slice())?;
        proof {
            lemma_orbit_count_step(m, n, p);
            lemma_term_count(m, n, p);
        }
        if nonzero {
            if !found || maximum_degree.less_than(&degree) {
                maximum_degree = degree;
            }
            found = true;
        }
        if !next_permutation(permutation) {
            break;
        }
        proof {
            lemma_next_permutation_advances(p, n);
            lemma_orbit_count_step(m, n, permutation@);
            lemma_term_count(m, n, permutation@);
        }
    }
    let len = permutation.len();
    let mut index: usize = 0;
    while index < len
        invariant
            len == permutation@.len(),
            len == n,
            n == dimension as nat,
            index <= len,
            forall|i: int| 0 <= i < index ==> #[trigger] permutation@[i] == i,
        decreases len - index,
    {
        permutation.set(index, index);
        index = index + 1;
    }
    proof {
        assert(permutation@ =~= identity_permutation(n));
    }
    if found {
        coefficient_count_from_degree(&maximum_degree)
    } else {
        Ok(0)
    }
}


/// The determinant of a square matrix of polynomials of dimension `dimension`, stored row
/// after row, by the Leibniz formula: its coefficients are those of the sum of the signed
/// terms of the permutations visited from the identity.
pub fn determinant(matrix: &[Polynomial], dimension: usize) -> (r: Result<Polynomial, AlgnumError>)
    requires
        matrix@.len() == dimension * dimension,
    ensures
        match r {
            Ok(v) => forall|k: int|
                0 <= k ==> #[trigger] coef(v@, k) == leibniz_coef(
                    poly_views(matrix@),
                    dimension as nat,
                    identity_permutation(dimension as nat),
                    k,
                ),
            Err(e) => resultant_failure(e),
        },
{
    let ghost m = poly_views(matrix@);
    let ghost n = dimension as nat;
    let ghost start = identity_permutation(n);
    if dimension == 0 {
        let one = resultant_one()?;
        proof {
            assert(!has_ascent(start));
            assert forall|k: int| 0 <= k implies #[trigger] coef(one@, k) == leibniz_coef(
                m,
                n,
                start,
                k,
            ) by {
                assert(term_from(m, n, start, 0) == seq![1int]);
                assert(inversion_count(start) == 0);
            }
        }
        return Ok(one);
    }
    let mut permutation: Vec<usize> = Vec::new();
    reserve_elements(&mut permutation, dimension, AllocationResource::Permutation)?;
    let mut index: usize = 0;
    while index < dimension
        invariant
            index <= dimension,
            permutation@ == identity_permutation(index as nat),
        decreases dimension - index,
    {
        permutation.push(index);
        index = index + 1;
        proof {
            assert(permutation@ =~= identity_permutation(index as nat));
        }
    }
    let sum_count = determinant_sum_coefficient_count(matrix, dimension, &mut permutation)?;
    let mut sum: Vec<BigInt> = Vec::new();
    reserve_elements(&mut sum, sum_count, AllocationResource::ResultantCoefficients)?;
    let mut fill: usize = 0;
    while fill < sum_count
        invariant
            fill <= sum_count,
            sum@.len() == fill,
            forall|k: int| 0 <= k < fill ==> #[trigger] sum@[k]@ == 0,
        decreases sum_count - fill,
    {
        sum.push(BigInt::zero());
        fill = fill + 1;
    }
    proof {
        assert(digits_below(start, n));
        lemma_digit_value_bound(start, n);
    }
    loop
        invariant
            matrix@.len() == dimension * dimension,
            m == poly_views(matrix@),
            n == dimension as nat,
            start == identity_permutation(n),
            digits_below(start, n),
            digits_below(permutation@, n),
            0 <= digit_value(permutation@, n) < pow(n as int, n),
            sum_count == orbit_count(m, n, start),
            orbit_count(m, n, permutation@) <= sum_count,
            sum@.len() == sum_count,
            forall|k: int|
                0 <= k < sum_count ==> #[trigger] sum@[k]@ + leibniz_coef(m, n, permutation@, k)
                    == leibniz_coef(m, n, start, k),
        decreases pow(n as int, n) - digit_value(permutation@, n),
    {
        let ghost p = permutation@;
        let product = determinant_term(matrix, dimension, permutation.as_slice())?;
        let odd = inversion_is_odd(&permutation);
        proof {
            lemma_orbit_count_step(m, n, p);
            lemma_term_count(m, n, p);
        }
        let coefficients = product.coefficients();
        let ghost before = sum@;
        let mut slot: usize = 0;
        while slot < coefficients.len()
            invariant
                int_values(coefficients@) == term_from(m, n, p, 0),
                coefficients@.len() <= sum_count,
                sum@.len() == sum_count,
                before.len() == sum_count,
                slot <= coefficients@.len(),
                odd == (inversion_count(p) % 2 == 1),
                forall|k: int|
                    0 <= k < slot ==> #[trigger] sum@[k]@ == before[k]@ + signed_coef(m, n, p, k),
                forall|k: int| slot <= k < sum_count ==> #[trigger] sum@[k] == before[k],
            decreases coefficients@.len() - slot,
        {
            let updated = if odd {
                sum[slot].sub(&coefficients[slot])
            } else {
                sum[slot].add(&coefficients[slot])
            };
            let value = match updated {
                Ok(value) => value,
                Err(error) => return Err(AlgnumError::Bigint(error)),
            };
            proof {
                assert(coef(term_from(m, n, p, 0), slot as int) == coefficients@[slot as int]@);
            }
            let ghost previous = sum@;
            sum.set(slot, value);
            proof {
                assert forall|k: int| 0 <= k < slot + 1 implies #[trigger] sum@[k]@ == before[k]@
                    + signed_coef(m, n, p, k) by {
                    if k < slot {
                        assert(sum@[k] == previous[k]);
                    }
                }
            }
            slot = slot + 1;
        }
        proof {
            assert forall|k: int| 0 <= k < sum_count implies #[trigger] sum@[k]@ == before[k]@
                + signed_coef(m, n, p, k) by {
                if k >= slot {
                    assert(coef(term_from(m, n, p, 0), k) == 0);
                }
            }
        }
        if !next_permutation(&mut permutation) {
            proof {
                assert forall|k: int| 0 <= k implies #[trigger] coef(
                    trim_int(int_values(sum@)),
                    k,
                ) == leibniz_coef(m, n, start, k) by {
                    lemma_coef_trim(int_values(sum@), k);
                    if k >= sum_count {
                        lemma_leibniz_vanishes(m, n, start, k);
                    } else {
                        assert(before[k]@ + leibniz_coef(m, n, p, k) == leibniz_coef(m, n, start, k));
                        assert(int_values(sum@)[k] == sum@[k]@);
                    }
                }
            }
            return Ok(Polynomial::from_coefficients(sum));
        }
        proof {
            lemma_next_permutation_advances(p, n);
            assert forall|k: int| 0 <= k < sum_count implies #[trigger] sum@[k]@ + leibniz_coef(
                m,
                n,
                permutation@,
                k,
            ) == leibniz_coef(m, n, start, k) by {
                assert(before[k]@ + leibniz_coef(m, n, p, k) == leibniz_coef(m, n, start, k));
            }
        }
    }
}

/// The constant one, with its coefficient buffer reported as resultant storage.
fn resultant_one() -> (r: Result<Polynomial, AlgnumError>)
    ensures
        match r {
            Ok(v) => v@ == seq![1int],
            Err(e) => resultant_failure(e),
        },
{
    let mut coefficients: Vec<BigInt> = Vec::new();
    reserve_elements(&mut coefficients, 1, AllocationResource::ResultantCoefficients)?;
    let one = match BigInt::one() {
        Ok(value) => value,
        Err(error) => return Err(AlgnumError::Bigint(error)),
    };
    coefficients.push(one);
    proof {
        assert(int_values(coefficients@) =~= seq![1int]);
        crate::polynomial::lemma_trim_trimmed(seq![1int]);
    }
    Ok(Polynomial::from_coefficients(coefficients))
}


// ---------------------------------------------------------------------------
// The resultant
// ---------------------------------------------------------------------------

/// The number of entries up to the last nonzero polynomial.
pub open spec fn normalized_length(s: Seq<Seq<int>>) -> nat
    decreases s.len(),
{
    if s.len() > 0 && s[s.len() - 1].len() == 0 {
        normalized_length(s.drop_last())
    } else {
        s.len()
    }
}

/// `b` multiplied by itself `e` times, from the right.
pub open spec fn poly_power(b: Seq<int>, e: nat) -> Seq<int>
    decreases e,
{
    if e == 0 {
        seq![1int]
    } else {
        poly_mul(poly_power(b, (e - 1) as nat), b)
    }
}

/// Entry `column` of a row that lists `c` from its last entry down, starting at column
/// `shift`; zero elsewhere.
pub open spec fn shifted_entry(c: Seq<Seq<int>>, shift: int, column: int) -> Seq<int> {
    if column >= shift && column - shift < c.len() {
        c[c.len() - 1 - (column - shift)]
    } else {
        Seq::empty()
    }
}

/// The Sylvester matrix of two polynomials of positive degree, given by their
/// coefficients (lowest degree first, last one nonzero), stored row after row: as many
/// rows of the left coefficients as the right degree, then as many rows of the right
/// coefficients as the left degree.
pub open spec fn sylvester_matrix(left: Seq<Seq<int>>, right: Seq<Seq<int>>) -> Seq<Seq<int>> {
    let left_degree = left.len() - 1;
    let right_degree = right.len() - 1;
    let n = left_degree + right_degree;
    Seq::new(
        (n * n) as nat,
        |i: int|
            if i / n < right_degree {
                shifted_entry(left, i / n, i % n)
            } else {
                shifted_entry(right, i / n - right_degree, i % n)
            },
    )
}

/// What the resultant of `left` and `right`, polynomials whose coefficients are the
/// polynomials of the two sequences, is: zero if either is zero; one for two constants;
/// a power of the constant when one of them is constant; else, coefficient by
/// coefficient, the Leibniz formula for the determinant of their Sylvester matrix.
pub open spec fn is_resultant_of(left: Seq<Seq<int>>, right: Seq<Seq<int>>, v: Seq<int>) -> bool {
    let l = left.subrange(0, normalized_length(left) as int);
    let r = right.subrange(0, normalized_length(right) as int);
    let n = (l.len() - 1 + r.len() - 1) as nat;
    if l.len() == 0 || r.len() == 0 {
        v == Seq::<int>::empty()
    } else if l.len() == 1 && r.len() == 1 {
        v == seq![1int]
    } else if l.len() == 1 {
        v == poly_power(l[0], (r.len() - 1) as nat)
    } else if r.len() == 1 {
        v == poly_power(r[0], (l.len() - 1) as nat)
    } else {
        forall|k: int|
            0 <= k ==> #[trigger] coef(v, k) == leibniz_coef(
                sylvester_matrix(l, r),
                n,
                identity_permutation(n),
                k,
            )
    }
}

proof fn lemma_normalized_length(s: Seq<Seq<int>>)
    ensures
        normalized_length(s) <= s.len(),
        normalized_length(s) > 0 ==> s[normalized_length(s) - 1].len() > 0,
        forall|i: int| normalized_length(s) <= i < s.len() ==> #[trigger] s[i].len() == 0,
    decreases s.len(),
{
    if s.len() > 0 && s[s.len() - 1].len() == 0 {
        let t = s.drop_last();
        lemma_normalized_length(t);
        assert forall|i: int| normalized_length(s) <= i < s.len() implies #[trigger] s[i].len()
            == 0 by {
            if i < t.len() {
                assert(t[i] == s[i]);
            }
        }
    }
}

/// The number of coefficients up to the last nonzero one.
fn normalized_len(coefficients: &[Polynomial]) -> (r: usize)
    ensures
        r == normalized_length(poly_views(coefficients@)),
{
    let ghost s = poly_views(coefficients@);
    let mut len = coefficients.len();
    proof {
        assert(s.subrange(0, len as int) =~= s);
    }
    while len > 0 && coefficients[len - 1].is_zero()
        invariant
            s == poly_views(coefficients@),
            len <= coefficients@.len(),
            normalized_length(s.subrange(0, len as int)) == normalized_length(s),
        decreases len,
    {
        proof {
            assert(s.subrange(0, len as int).drop_last() =~= s.subrange(0, len - 1));
        }
        len = len - 1;
    }
    len
}

/// A copy, with its coefficient buffer reported as resultant storage.
fn clone_resultant(value: &Polynomial) -> (r: Result<Polynomial, AlgnumError>)
    ensures
        match r {
            Ok(v) => v@ == value@,
            Err(e) => resultant_failure(e),
        },
{
    proof {
        use_type_invariant(value);
    }
    let source = value.coefficients();
    let mut coefficients: Vec<BigInt> = Vec::new();
    reserve_elements(&mut coefficients, source.len(), AllocationResource::ResultantCoefficients)?;
    let mut index: usize = 0;
    while index < source.len()
        invariant
            int_values(source@) == value@,
            index <= source@.len(),
            coefficients@.len() == index,
            forall|k: int| 0 <= k < index ==> #[trigger] coefficients@[k]@ == source@[k]@,
        decreases source@.len() - index,
    {
        let copy = match source[index].try_clone() {
            Ok(v) => v,
            Err(error) => return Err(AlgnumError::Bigint(error)),
        };
        coefficients.push(copy);
        index = index + 1;
    }
    proof {
        assert(int_values(coefficients@) =~= value@);
        crate::polynomial::lemma_trim_trimmed(value@);
    }
    Ok(Polynomial::from_coefficients(coefficients))
}

/// The product, with its coefficient buffer reported as resultant storage.
fn mul_resultant(left: &Polynomial, right: &Polynomial) -> (r: Result<Polynomial, AlgnumError>)
    ensures
        match r {
            Ok(v) => v@ == poly_mul(left@, right@),
            Err(e) => resultant_failure(e),
        },
{
    left.mul_reserving(right, AllocationResource::ResultantCoefficients)
}

/// `base` to the power `exponent`.
fn pow_resultant(base: &Polynomial, exponent: usize) -> (r: Result<Polynomial, AlgnumError>)
    ensures
        match r {
            Ok(v) => v@ == poly_power(base@, exponent as nat),
            Err(e) => resultant_failure(e),
        },
{
    let mut result = resultant_one()?;
    let mut done: usize = 0;
    while done < exponent
        invariant
            done <= exponent,
            result@ == poly_power(base@, done as nat),
        decreases exponent - done,
    {
        result = mul_resultant(&result, base)?;
        done = done + 1;
    }
    Ok(result)
}

/// The failure for a size `left + right` (or `left * right` when `multiply`) of the
/// resource that exceeds `usize`.
fn size_overflow(resource: RepresentationResource, left: usize, right: usize, multiply: bool) -> (r:
    AlgnumError)
    ensures
        resultant_failure(r),
        r matches AlgnumError::RepresentationLimit { resource: found, required, maximum } ==> found
            == resource && required@ == (if multiply {
            left * right
        } else {
            left + right
        }) && maximum@ == usize::MAX,
{
    let left_value = match BigUint::try_from(left) {
        Ok(value) => value,
        Err(error) => return AlgnumError::Bigint(error),
    };
    let right_value = match BigUint::try_from(right) {
        Ok(value) => value,
        Err(error) => return AlgnumError::Bigint(error),
    };
    let combined = if multiply {
        left_value.mul(&right_value)
    } else {
        left_value.add(&right_value)
    };
    let required = match combined {
        Ok(value) => value,
        Err(error) => return AlgnumError::Bigint(error),
    };
    let maximum = match BigUint::try_from(usize::MAX) {
        Ok(value) => value,
        Err(error) => return AlgnumError::Bigint(error),
    };
    AlgnumError::RepresentationLimit { resource, required, maximum }
}

/// Appends the row of the Sylvester matrix that lists the first `len` polynomials of
/// `coefficients` from the last down, starting at column `shift`.
fn append_sylvester_row(
    matrix: &mut Vec<Polynomial>,
    dimension: usize,
    shift: usize,
    coefficients: &[Polynomial],
    len: usize,
) -> (r: Result<(), AlgnumError>)
    requires
        len <= coefficients@.len(),
    ensures
        match r {
            Ok(()) => final(matrix)@.len() == old(matrix)@.len() + dimension && (forall|i: int|
                0 <= i < old(matrix)@.len() ==> #[trigger] final(matrix)@[i] == old(matrix)@[i])
                && (forall|c: int|
                0 <= c < dimension ==> #[trigger] final(matrix)@[old(matrix)@.len() + c]@
                    == shifted_entry(
                    poly_views(coefficients@).subrange(0, len as int),
                    shift as int,
                    c,
                )),
            Err(e) => resultant_failure(e),
        },
{
    let ghost start = matrix@;
    let ghost c = poly_views(coefficients@).subrange(0, len as int);
    let mut column: usize = 0;
    while column < dimension
        invariant
            len <= coefficients@.len(),
            c == poly_views(coefficients@).subrange(0, len as int),
            column <= dimension,
            matrix@.len() == start.len() + column,
            forall|i: int| 0 <= i < start.len() ==> #[trigger] matrix@[i] == start[i],
            forall|x: int|
                0 <= x < column ==> #[trigger] matrix@[start.len() + x]@ == shifted_entry(
                    c,
                    shift as int,
                    x,
                ),
        decreases dimension - column,
    {
        let value = if column >= shift && column - shift < len {
            let source = len - 1 - (column - shift);
            clone_resultant(&coefficients[source])?
        } else {
            Polynomial::zero()
        };
        let ghost before = matrix@;
        matrix.push(value);
        proof {
            assert forall|x: int|
                0 <= x < column + 1 implies #[trigger] matrix@[start.len() + x]@ == shifted_entry(
                c,
                shift as int,
                x,
            ) by {
                if x < column {
                    assert(matrix@[start.len() + x] == before[start.len() + x]);
                }
            }
        }
        column = column + 1;
    }
    Ok(())
}

/// The resultant of two polynomials whose coefficients (lowest degree first) are integer
/// polynomials.
pub fn resultant(left: &[Polynomial], right: &[Polynomial]) -> (r: Result<Polynomial, AlgnumError>)
    ensures
        match r {
            Ok(v) => is_resultant_of(poly_views(left@), poly_views(right@), v@),
            Err(e) => resultant_failure(e),
        },
{
    let ghost lv = poly_views(left@);
    let ghost rv = poly_views(right@);
    let left_len = normalized_len(left);
    let right_len = normalized_len(right);
    let ghost l = lv.subrange(0, left_len as int);
    let ghost rr = rv.subrange(0, right_len as int);
    proof {
        lemma_normalized_length(lv);
        lemma_normalized_length(rv);
    }
    if left_len == 0 || right_len == 0 {
        return Ok(Polynomial::zero());
    }
    let left_degree = left_len - 1;
    let right_degree = right_len - 1;
    if left_degree == 0 && right_degree == 0 {
        return resultant_one();
    }
    if left_degree == 0 {
        return pow_resultant(&left[0], right_degree);
    }
    if right_degree == 0 {
        return pow_resultant(&right[0], left_degree);
    }
    let dimension = match left_degree.checked_add(right_degree) {
        Some(value) => value,
        None => {
            return Err(
                size_overflow(
                    RepresentationResource::SylvesterDimension,
                    left_degree,
                    right_degree,
                    false,
                ),
            )
        },
    };
    let element_count = match dimension.checked_mul(dimension) {
        Some(value) => value,
        None => {
            return Err(
                size_overflow(
                    RepresentationResource::SylvesterElementCount,
                    dimension,
                    dimension,
                    true,
                ),
            )
        },
    };
    let ghost n = dimension as int;
    let ghost target = sylvester_matrix(l, rr);
    let mut matrix: Vec<Polynomial> = Vec::new();
    reserve_elements(&mut matrix, element_count, AllocationResource::SylvesterElements)?;
    let mut row: usize = 0;
    while row < right_degree
        invariant
            l == poly_views(left@).subrange(0, left_len as int),
            left_len <= left@.len(),
            n == dimension,
            dimension == left_degree + right_degree,
            left_degree == left_len - 1,
            right_degree == right_len - 1,
            row <= right_degree,
            matrix@.len() == row * dimension,
            forall|i: int|
                0 <= i < row * dimension ==> #[trigger] matrix@[i]@ == shifted_entry(
                    l,
                    i / n,
                    i % n,
                ),
        decreases right_degree - row,
    {
        let ghost before = matrix@;
        append_sylvester_row(&mut matrix, dimension, row, left, left_len)?;
        proof {
            assert((row + 1) * dimension == row * dimension + dimension) by (nonlinear_arith);
            assert forall|i: int|
                0 <= i < (row + 1) * dimension implies #[trigger] matrix@[i]@ == shifted_entry(
                l,
                i / n,
                i % n,
            ) by {
                if i < row * dimension {
                    assert(matrix@[i] == before[i]);
                } else {
                    let c = i - row * dimension;
                    assert(matrix@[before.len() + c]@ == shifted_entry(l, row as int, c));
                    vstd::arithmetic::div_mod::lemma_fundamental_div_mod_converse(
                        i,
                        n,
                        row as int,
                        c,
                    );
                }
            }
        }
        row = row + 1;
    }
    let mut row: usize = 0;
    while row < left_degree
        invariant
            l == poly_views(left@).subrange(0, left_len as int),
            rr == poly_views(right@).subrange(0, right_len as int),
            right_len <= right@.len(),
            n == dimension,
            dimension == left_degree + right_degree,
            left_degree == left_len - 1,
            right_degree == right_len - 1,
            row <= left_degree,
            matrix@.len() == (right_degree + row) * dimension,
            forall|i: int|
                0 <= i < right_degree * dimension ==> #[trigger] matrix@[i]@ == shifted_entry(
                    l,
                    i / n,
                    i % n,
                ),
            forall|i: int|
                right_degree * dimension <= i < (right_degree + row) * dimension
                    ==> #[trigger] matrix@[i]@ == shifted_entry(rr, i / n - right_degree, i % n),
        decreases left_degree - row,
    {
        let ghost before = matrix@;
        append_sylvester_row(&mut matrix, dimension, row, right, right_len)?;
        proof {
            assert((right_degree + row + 1) * dimension == (right_degree + row) * dimension
                + dimension) by (nonlinear_arith);
            assert forall|i: int|
                right_degree * dimension <= i < (right_degree + row + 1) * dimension
                    implies #[trigger] matrix@[i]@ == shifted_entry(
                rr,
                i / n - right_degree,
                i % n,
            ) by {
                if i < (right_degree + row) * dimension {
                    assert(matrix@[i] == before[i]);
                } else {
                    let c = i - (right_degree + row) * dimension;
                    assert(matrix@[before.len() + c]@ == shifted_entry(rr, row as int, c));
                    vstd::arithmetic::div_mod::lemma_fundamental_div_mod_converse(
                        i,
                        n,
                        (right_degree + row) as int,
                        c,
                    );
                }
            }
            assert(right_degree * dimension <= (right_degree + row) * dimension) by (nonlinear_arith);
            assert forall|i: int| 0 <= i < right_degree * dimension implies #[trigger] matrix@[i]@
                == shifted_entry(l, i / n, i % n) by {
                assert(matrix@[i] == before[i]);
            }
        }
        row = row + 1;
    }
    proof {
        assert(matrix@.len() == dimension * dimension) by (nonlinear_arith)
            requires
                matrix@.len() == (right_degree + left_degree) * dimension,
                dimension == left_degree + right_degree,
        ;
        assert(poly_views(matrix@) =~= target) by {
            assert forall|i: int| 0 <= i < matrix@.len() implies #[trigger] poly_views(matrix@)[i]
                == target[i] by {
                vstd::arithmetic::div_mod::lemma_fundamental_div_mod(i, n);
                let q = i / n;
                let rem = i % n;
                if i < right_degree * dimension {
                    if q >= right_degree {
                        assert(q * n >= right_degree * n) by (nonlinear_arith)
                            requires
                                q >= right_degree,
                                n > 0,
                        ;
                    }
                } else {
                    if q < right_degree {
                        assert(q * n + n <= right_degree * n) by (nonlinear_arith)
                            requires
                                q < right_degree,
                                n > 0,
                        ;
                    }
                }
            }
        }
    }
    determinant(matrix.as_slice(), dimension)
}


} // verus!
