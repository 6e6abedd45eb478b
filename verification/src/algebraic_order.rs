//! The order of a real algebraic number against a dyadic, and its sign.
use crate::algebraic::{dyadic_root, encloses_root, enclose_failure, RealAlgebraic};
use crate::algebraic_arith::{difference_failure, difference_of};
use crate::algnum_error::{resource_failure, AlgnumError};
use crate::dyadic::{dyadic_le, is_greater, Dyadic};
use crate::error::BigintError;
use crate::integer::{BigInt, Sign};
use crate::isolation::{
    is_nonroot_interval_from, isolates_roots_in, isolation_failure, root_bound, root_views,
};
use crate::natural::BigUint;
use crate::polynomial::product_failure;
use crate::sturm::{dyadic_lt, dyadic_rational, sturm_sequence_of, SturmSequence};
use std::cmp::Ordering;
use vstd::prelude::*;

verus! {

/// `d` lies in the closed interval `e`.
pub open spec fn holds_point(e: ((int, nat), (int, nat)), d: (int, nat)) -> bool {
    dyadic_le(e.0, d) && dyadic_le(d, e.1)
}

/// In some isolation of the real roots, interval `j` is the first that holds `d`.
pub open spec fn dyadic_position(s: Seq<Seq<int>>, d: (int, nat), j: int) -> bool {
    exists|l: (int, nat), u: (int, nat), roots: Seq<(usize, ((int, nat), (int, nat)))>|
        #![trigger is_nonroot_interval_from(s, root_bound(s[0]), l, u), isolates_roots_in(s, l, u, roots)]
        is_nonroot_interval_from(s, root_bound(s[0]), l, u) && isolates_roots_in(s, l, u, roots)
            && 0 <= j < roots.len() && holds_point(roots[j].1, d) && forall|i: int|
            0 <= i < j ==> !holds_point(#[trigger] roots[i].1, d)
}

/// In some isolation of the real roots, no interval holds `d`.
pub open spec fn no_interval_holds(s: Seq<Seq<int>>, d: (int, nat)) -> bool {
    exists|l: (int, nat), u: (int, nat), roots: Seq<(usize, ((int, nat), (int, nat)))>|
        #![trigger is_nonroot_interval_from(s, root_bound(s[0]), l, u), isolates_roots_in(s, l, u, roots)]
        is_nonroot_interval_from(s, root_bound(s[0]), l, u) && isolates_roots_in(s, l, u, roots)
            && forall|i: int| 0 <= i < roots.len() ==> !holds_point(#[trigger] roots[i].1, d)
}

/// Root `index` of `p` is below `d`: `d` is a root of `p` at a later position, or an
/// enclosure of root `index` lies below the non-root `d`.
pub open spec fn root_below(p: Seq<int>, index: usize, d: (int, nat)) -> bool {
    if dyadic_root(p, d) {
        exists|j: int| #[trigger] dyadic_position(sturm_sequence_of(p), d, j) && index < j
    } else {
        exists|e: ((int, nat), (int, nat)), bits: u32|
            #[trigger] encloses_root(sturm_sequence_of(p), index, e, bits) && dyadic_lt(e.1, d)
    }
}

/// Root `index` of `p` is above `d`, in the same sense.
pub open spec fn root_above(p: Seq<int>, index: usize, d: (int, nat)) -> bool {
    if dyadic_root(p, d) {
        exists|j: int| #[trigger] dyadic_position(sturm_sequence_of(p), d, j) && index > j
    } else {
        exists|e: ((int, nat), (int, nat)), bits: u32|
            #[trigger] encloses_root(sturm_sequence_of(p), index, e, bits) && dyadic_lt(d, e.0)
    }
}

/// Root `index` of `p` is `d`: `d` is a root of `p` at that position.
pub open spec fn root_at(p: Seq<int>, index: usize, d: (int, nat)) -> bool {
    dyadic_root(p, d) && dyadic_position(sturm_sequence_of(p), d, index as int)
}

/// Why a comparison of root `index` of `p` with `d` failed.
pub open spec fn compare_failure(p: Seq<int>, index: usize, d: (int, nat), e: AlgnumError) -> bool {
    ||| product_failure(e)
    ||| resource_failure(e)
    ||| isolation_failure(sturm_sequence_of(p), e)
    ||| (e is NoTargetRoot && dyadic_root(p, d) && no_interval_holds(sturm_sequence_of(p), d))
    ||| enclose_failure(sturm_sequence_of(p), index, e)
    ||| (e matches AlgnumError::Bigint(b) && b is ExponentOverflow && !dyadic_root(p, d) && forall|bits: u32|
        #[trigger] unseparated_at(sturm_sequence_of(p), index, d, bits))
}

/// An enclosure of root `index` at precision `2^-bits` still holds `d`.
pub open spec fn unseparated_at(s: Seq<Seq<int>>, index: usize, d: (int, nat), bits: u32) -> bool {
    exists|e: ((int, nat), (int, nat))| #[trigger] encloses_root(s, index, e, bits) && holds_point(e, d)
}

/// The first interval of an isolation that holds `d` gives its position.
proof fn lemma_first_holding(
    s: Seq<Seq<int>>,
    d: (int, nat),
    l: (int, nat),
    u: (int, nat),
    views: Seq<(usize, ((int, nat), (int, nat)))>,
    j: usize,
)
    requires
        is_nonroot_interval_from(s, root_bound(s[0]), l, u),
        isolates_roots_in(s, l, u, views),
        j < views.len(),
        holds_point(views[j as int].1, d),
        forall|i: int| 0 <= i < j ==> !holds_point(#[trigger] views[i].1, d),
    ensures
        dyadic_position(s, d, j as int),
{
}

impl RealAlgebraic {
    /// The order of this number against `rhs`: by position among the roots when `rhs`
    /// is a root of the minimal polynomial, else by enclosures of growing precision from
    /// `2^0` on until one lies wholly on one side of `rhs`.
    pub fn compare_dyadic(&self, rhs: &Dyadic) -> (r: Result<Ordering, AlgnumError>)
        ensures
            self@.0.len() <= 1 ==> r == Err::<Ordering, AlgnumError>(AlgnumError::ZeroPolynomial),
            self@.0.len() > 1 ==> match r {
                Ok(Ordering::Less) => root_below(self@.0, self@.1, rhs@),
                Ok(Ordering::Equal) => root_at(self@.0, self@.1, rhs@),
                Ok(Ordering::Greater) => root_above(self@.0, self@.1, rhs@),
                Err(e) => compare_failure(self@.0, self@.1, rhs@, e),
            },
    {
        let ghost p = self@.0;
        let ghost index = self@.1;
        let sequence = SturmSequence::new(self.minimal_polynomial().polynomial())?;
        let ghost s = sequence@;
        let value = dyadic_rational(rhs)?;
        let evaluated = self.minimal_polynomial().polynomial().evaluate_rational(&value)?;
        if evaluated.is_zero() {
            let roots = match sequence.isolate_real_roots() {
                Ok(v) => v,
                Err(error) => return Err(error),
            };
            let ghost views = root_views(roots@);
            let ghost (l, u): ((int, nat), (int, nat)) = choose|l: (int, nat), u: (int, nat)|
                #[trigger] is_nonroot_interval_from(s, root_bound(s[0]), l, u) && isolates_roots_in(
                    s,
                    l,
                    u,
                    views,
                );
            let mut j: usize = 0;
            while j < roots.len() && !roots[j].enclosure.contains_dyadic(rhs)
                invariant
                    j <= roots@.len(),
                    views == root_views(roots@),
                    forall|i: int| 0 <= i < j ==> !holds_point(#[trigger] views[i].1, rhs@),
                decreases roots@.len() - j,
            {
                j = j + 1;
            }
            if j == roots.len() {
                proof {
                    assert(no_interval_holds(s, rhs@));
                }
                return Err(AlgnumError::NoTargetRoot);
            }
            proof {
                lemma_first_holding(s, rhs@, l, u, views, j);
            }
            let position = self.root_index().get();
            if position < j {
                return Ok(Ordering::Less);
            } else if position == j {
                return Ok(Ordering::Equal);
            } else {
                return Ok(Ordering::Greater);
            }
        }
        let mut bits: u32 = 0;
        loop
            invariant
                p == self@.0,
                index == self@.1,
                p.len() > 1,
                !dyadic_root(p, rhs@),
                forall|b: u32| b < bits ==> #[trigger] unseparated_at(sturm_sequence_of(p), index, rhs@, b),
            decreases u32::MAX - bits,
        {
            let interval = self.enclose(bits)?;
            if is_greater(rhs, interval.enclosure().upper()) {
                return Ok(Ordering::Less);
            }
            if is_greater(interval.enclosure().lower(), rhs) {
                return Ok(Ordering::Greater);
            }
            proof {
                assert(holds_point(interval@.1, rhs@));
                assert(unseparated_at(sturm_sequence_of(p), index, rhs@, bits));
            }
            if bits == u32::MAX {
                let required = match BigUint::try_from(4294967296u64) {
                    Ok(v) => v,
                    Err(error) => return Err(AlgnumError::Bigint(error)),
                };
                return Err(
                    AlgnumError::Bigint(BigintError::ExponentOverflow { required, maximum: u32::MAX }),
                );
            }
            bits = bits + 1;
        }
    }

    /// The sign: zero for the root of `x`, else the order against zero.
    pub fn sign(&self) -> (r: Result<Sign, AlgnumError>)
        ensures
            self@.0 == seq![0int, 1int] && self@.1 == 0 ==> r == Ok::<Sign, AlgnumError>(Sign::Zero),
            !(self@.0 == seq![0int, 1int] && self@.1 == 0) && self@.0.len() <= 1 ==> r == Err::<
                Sign,
                AlgnumError,
            >(AlgnumError::ZeroPolynomial),
            !(self@.0 == seq![0int, 1int] && self@.1 == 0) && self@.0.len() > 1 ==> match r {
                Ok(Sign::Negative) => root_below(self@.0, self@.1, (0int, 0nat)),
                Ok(Sign::Zero) => root_at(self@.0, self@.1, (0int, 0nat)),
                Ok(Sign::Positive) => root_above(self@.0, self@.1, (0int, 0nat)),
                Err(e) => compare_failure(self@.0, self@.1, (0int, 0nat), e),
            },
    {
        if self.is_zero() {
            return Ok(Sign::Zero);
        }
        let zero = Dyadic::new(BigInt::zero(), 0);
        match self.compare_dyadic(&zero) {
            Ok(Ordering::Less) => Ok(Sign::Negative),
            Ok(Ordering::Equal) => Ok(Sign::Zero),
            Ok(Ordering::Greater) => Ok(Sign::Positive),
            Err(error) => Err(error),
        }
    }
}

impl RealAlgebraic {
    /// The order of two real algebraic numbers: the sign of their difference.
    pub fn compare(&self, rhs: &Self) -> (r: Result<Ordering, AlgnumError>)
        ensures
            match r {
                Ok(Ordering::Less) => exists|d: (Seq<int>, usize)|
                    #[trigger] difference_of(self@, rhs@, d) && !(d.0 == seq![0int, 1int] && d.1 == 0)
                        && d.0.len() > 1 && root_below(d.0, d.1, (0int, 0nat)),
                Ok(Ordering::Equal) => exists|d: (Seq<int>, usize)|
                    #[trigger] difference_of(self@, rhs@, d) && ((d.0 == seq![0int, 1int] && d.1 == 0)
                        || d.0.len() > 1 && root_at(d.0, d.1, (0int, 0nat))),
                Ok(Ordering::Greater) => exists|d: (Seq<int>, usize)|
                    #[trigger] difference_of(self@, rhs@, d) && !(d.0 == seq![0int, 1int] && d.1 == 0)
                        && d.0.len() > 1 && root_above(d.0, d.1, (0int, 0nat)),
                Err(e) => difference_failure(self@, rhs@, e) || exists|d: (Seq<int>, usize)|
                    #[trigger] difference_of(self@, rhs@, d) && ((d.0.len() <= 1 && e is ZeroPolynomial)
                        || (d.0.len() > 1 && compare_failure(d.0, d.1, (0int, 0nat), e))),
            },
    {
        let difference = match self.sub(rhs) {
            Ok(v) => v,
            Err(error) => return Err(error),
        };
        proof {
            assert(difference_of(self@, rhs@, difference@));
        }
        match difference.sign() {
            Ok(Sign::Negative) => Ok(Ordering::Less),
            Ok(Sign::Zero) => Ok(Ordering::Equal),
            Ok(Sign::Positive) => Ok(Ordering::Greater),
            Err(error) => Err(error),
        }
    }
}

} // verus!
