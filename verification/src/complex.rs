//! Complex numbers over any component type, with the arithmetic of the component's
//! operators.
use core::ops::{Add, Div, Mul, Neg, Sub};
use vstd::prelude::*;
use vstd::std_specs::ops::{AddSpec, AddSpecImpl, DivSpec, DivSpecImpl, MulSpec, MulSpecImpl, NegSpec, NegSpecImpl, SubSpec, SubSpecImpl};

verus! {

/// A complex number `re + im i`.
#[derive(Clone, Copy, Debug, PartialEq)]
pub struct Complex<T> {
    re: T,
    im: T,
}

impl<T> View for Complex<T> {
    type V = (T, T);

    closed spec fn view(&self) -> (T, T) {
        (self.re, self.im)
    }
}

impl<T> Complex<T> {
    /// The complex number with these parts, in specifications.
    pub closed spec fn from_parts(re: T, im: T) -> Self {
        Complex { re, im }
    }

    /// Building from parts and viewing give the parts back.
    pub proof fn lemma_from_parts(re: T, im: T)
        ensures
            Self::from_parts(re, im)@ == (re, im),
    {
    }

    /// The complex number with real part `re` and imaginary part `im`.
    pub fn new(re: T, im: T) -> (r: Self)
        ensures
            r@ == (re, im),
    {
        Complex { re, im }
    }

    /// The real part.
    pub fn real_part(&self) -> (r: &T)
        ensures
            *r == self@.0,
    {
        &self.re
    }

    /// The imaginary part.
    pub fn imaginary(&self) -> (r: &T)
        ensures
            *r == self@.1,
    {
        &self.im
    }

    /// The real and imaginary parts.
    pub fn into_parts(self) -> (r: (T, T))
        ensures
            r == self@,
    {
        (self.re, self.im)
    }

    /// The real part, by value.
    pub fn real_value(self) -> (r: T) where T: Copy
        ensures
            r == self@.0,
    {
        self.re
    }

    /// The imaginary part, by value.
    pub fn imaginary_value(self) -> (r: T) where T: Copy
        ensures
            r == self@.1,
    {
        self.im
    }

    /// Replaces the real part.
    pub fn set_real(&mut self, value: T)
        ensures
            final(self)@ == (value, old(self)@.1),
    {
        self.re = value;
    }

    /// Replaces the imaginary part.
    pub fn set_imaginary(&mut self, value: T)
        ensures
            final(self)@ == (old(self)@.0, value),
    {
        self.im = value;
    }
}

impl<T: Neg<Output = T>> Neg for Complex<T> {
    type Output = Self;

    fn neg(self) -> (r: Self) {
        Complex { re: self.re.neg(), im: self.im.neg() }
    }
}

impl<T: Neg<Output = T>> NegSpecImpl for Complex<T> {
    open spec fn obeys_neg_spec() -> bool {
        T::obeys_neg_spec()
    }

    open spec fn neg_req(self) -> bool {
        self@.0.neg_req() && self@.1.neg_req()
    }

    open spec fn neg_spec(self) -> Self {
        Complex::from_parts(self@.0.neg_spec(), self@.1.neg_spec())
    }
}

impl<T: Add<Output = T>> Add for Complex<T> {
    type Output = Self;

    fn add(self, rhs: Self) -> (r: Self) {
        Complex { re: self.re.add(rhs.re), im: self.im.add(rhs.im) }
    }
}

impl<T: Add<Output = T>> AddSpecImpl for Complex<T> {
    open spec fn obeys_add_spec() -> bool {
        T::obeys_add_spec()
    }

    open spec fn add_req(self, rhs: Self) -> bool {
        self@.0.add_req(rhs@.0) && self@.1.add_req(rhs@.1)
    }

    open spec fn add_spec(self, rhs: Self) -> Self {
        Complex::from_parts(self@.0.add_spec(rhs@.0), self@.1.add_spec(rhs@.1))
    }
}

impl<T: Sub<Output = T>> Sub for Complex<T> {
    type Output = Self;

    fn sub(self, rhs: Self) -> (r: Self) {
        Complex { re: self.re.sub(rhs.re), im: self.im.sub(rhs.im) }
    }
}

impl<T: Sub<Output = T>> SubSpecImpl for Complex<T> {
    open spec fn obeys_sub_spec() -> bool {
        T::obeys_sub_spec()
    }

    open spec fn sub_req(self, rhs: Self) -> bool {
        self@.0.sub_req(rhs@.0) && self@.1.sub_req(rhs@.1)
    }

    open spec fn sub_spec(self, rhs: Self) -> Self {
        Complex::from_parts(self@.0.sub_spec(rhs@.0), self@.1.sub_spec(rhs@.1))
    }
}

impl<T: Copy + Neg<Output = T>> Complex<T> {
    /// The conjugate `re - im i`.
    pub fn conjugate(self) -> (r: Self)
        requires
            self@.1.neg_req(),
        ensures
            r@.0 == self@.0,
            T::obeys_neg_spec() ==> r@.1 == self@.1.neg_spec(),
    {
        Complex { re: self.re, im: self.im.neg() }
    }
}

impl<T: Copy + Add<Output = T> + Mul<Output = T>> Complex<T> {
    /// `re * re + im * im`.
    pub fn norm_squared(self) -> (r: T)
        requires
            self@.0.mul_req(self@.0),
            self@.1.mul_req(self@.1),
            self@.0.mul_spec(self@.0).add_req(self@.1.mul_spec(self@.1)),
            T::obeys_mul_spec(),
        ensures
            T::obeys_add_spec() ==> r == self@.0.mul_spec(self@.0).add_spec(self@.1.mul_spec(self@.1)),
    {
        let square_re = self.re.mul(self.re);
        let square_im = self.im.mul(self.im);
        square_re.add(square_im)
    }
}

impl<T: Copy + Add<Output = T> + Sub<Output = T> + Mul<Output = T>> Mul for Complex<T> {
    type Output = Self;

    fn mul(self, rhs: Self) -> (r: Self) {
        let re = self.re.mul(rhs.re).sub(self.im.mul(rhs.im));
        let im = self.re.mul(rhs.im).add(self.im.mul(rhs.re));
        Complex { re, im }
    }
}

impl<T: Copy + Add<Output = T> + Sub<Output = T> + Mul<Output = T>> MulSpecImpl for Complex<T> {
    open spec fn obeys_mul_spec() -> bool {
        T::obeys_mul_spec() && T::obeys_add_spec() && T::obeys_sub_spec()
    }

    open spec fn mul_req(self, rhs: Self) -> bool {
        let (a, b) = self@;
        let (c, d) = rhs@;
        &&& T::obeys_mul_spec()
        &&& a.mul_req(c) && b.mul_req(d) && a.mul_req(d) && b.mul_req(c)
        &&& a.mul_spec(c).sub_req(b.mul_spec(d))
        &&& a.mul_spec(d).add_req(b.mul_spec(c))
    }

    open spec fn mul_spec(self, rhs: Self) -> Self {
        let (a, b) = self@;
        let (c, d) = rhs@;
        Complex::from_parts(
            a.mul_spec(c).sub_spec(b.mul_spec(d)),
            a.mul_spec(d).add_spec(b.mul_spec(c)),
        )
    }
}

impl<T: Copy + Add<Output = T> + Sub<Output = T> + Mul<Output = T> + Div<Output = T>> Div for Complex<
    T,
> {
    type Output = Self;

    fn div(self, rhs: Self) -> (r: Self) {
        let denominator = rhs.re.mul(rhs.re).add(rhs.im.mul(rhs.im));
        let re = self.re.mul(rhs.re).add(self.im.mul(rhs.im)).div(denominator);
        let im = self.im.mul(rhs.re).sub(self.re.mul(rhs.im)).div(denominator);
        Complex { re, im }
    }
}

impl<T: Copy + Add<Output = T> + Sub<Output = T> + Mul<Output = T> + Div<Output = T>> DivSpecImpl for Complex<
    T,
> {
    open spec fn obeys_div_spec() -> bool {
        T::obeys_mul_spec() && T::obeys_add_spec() && T::obeys_sub_spec() && T::obeys_div_spec()
    }

    open spec fn div_req(self, rhs: Self) -> bool {
        let (a, b) = self@;
        let (c, d) = rhs@;
        let den = c.mul_spec(c).add_spec(d.mul_spec(d));
        &&& T::obeys_mul_spec() && T::obeys_add_spec() && T::obeys_sub_spec()
        &&& c.mul_req(c) && d.mul_req(d) && c.mul_spec(c).add_req(d.mul_spec(d))
        &&& a.mul_req(c) && b.mul_req(d) && a.mul_spec(c).add_req(b.mul_spec(d))
        &&& b.mul_req(c) && a.mul_req(d) && b.mul_spec(c).sub_req(a.mul_spec(d))
        &&& a.mul_spec(c).add_spec(b.mul_spec(d)).div_req(den)
        &&& b.mul_spec(c).sub_spec(a.mul_spec(d)).div_req(den)
    }

    open spec fn div_spec(self, rhs: Self) -> Self {
        let (a, b) = self@;
        let (c, d) = rhs@;
        let den = c.mul_spec(c).add_spec(d.mul_spec(d));
        Complex::from_parts(
            a.mul_spec(c).add_spec(b.mul_spec(d)).div_spec(den),
            b.mul_spec(c).sub_spec(a.mul_spec(d)).div_spec(den),
        )
    }
}

impl<T: Copy + Mul<Output = T>> Mul<T> for Complex<T> {
    type Output = Self;

    fn mul(self, rhs: T) -> (r: Self) {
        Complex { re: self.re.mul(rhs), im: self.im.mul(rhs) }
    }
}

impl<T: Copy + Mul<Output = T>> MulSpecImpl<T> for Complex<T> {
    open spec fn obeys_mul_spec() -> bool {
        T::obeys_mul_spec()
    }

    open spec fn mul_req(self, rhs: T) -> bool {
        self@.0.mul_req(rhs) && self@.1.mul_req(rhs)
    }

    open spec fn mul_spec(self, rhs: T) -> Self {
        Complex::from_parts(self@.0.mul_spec(rhs), self@.1.mul_spec(rhs))
    }
}

impl<T: Copy + Div<Output = T>> Div<T> for Complex<T> {
    type Output = Self;

    fn div(self, rhs: T) -> (r: Self) {
        Complex { re: self.re.div(rhs), im: self.im.div(rhs) }
    }
}

impl<T: Copy + Div<Output = T>> DivSpecImpl<T> for Complex<T> {
    open spec fn obeys_div_spec() -> bool {
        T::obeys_div_spec()
    }

    open spec fn div_req(self, rhs: T) -> bool {
        self@.0.div_req(rhs) && self@.1.div_req(rhs)
    }

    open spec fn div_spec(self, rhs: T) -> Self {
        Complex::from_parts(self@.0.div_spec(rhs), self@.1.div_spec(rhs))
    }
}

} // verus!
