//! Identifiers of expressions, atoms and consumers, and bit precisions.
use vstd::prelude::*;

verus! {

/// An expression's position in an expression graph.
#[derive(Clone, Copy, Debug, Eq, Hash, Ord, PartialEq, PartialOrd, Structural)]
pub struct ExprId(u32);

impl View for ExprId {
    type V = u32;

    closed spec fn view(&self) -> u32 {
        self.0
    }
}

impl ExprId {
    /// The identifier with this number.
    pub fn new(value: u32) -> (r: Self)
        ensures
            r@ == value,
    {
        ExprId(value)
    }

    /// The number.
    pub fn get(self) -> (r: u32)
        ensures
            r == self@,
    {
        self.0
    }

    /// Identifiers with the same number are equal.
    pub proof fn lemma_view_injective(a: Self, b: Self)
        requires
            a@ == b@,
        ensures
            a == b,
    {
    }
}

/// The identifier of an atom value.
#[derive(Clone, Copy, Debug, Eq, Hash, Ord, PartialEq, PartialOrd, Structural)]
pub struct AtomId(u32);

impl View for AtomId {
    type V = u32;

    closed spec fn view(&self) -> u32 {
        self.0
    }
}

impl AtomId {
    /// The identifier with this number.
    pub fn new(value: u32) -> (r: Self)
        ensures
            r@ == value,
    {
        AtomId(value)
    }

    /// The number.
    pub fn get(self) -> (r: u32)
        ensures
            r == self@,
    {
        self.0
    }

    /// Identifiers with the same number are equal.
    pub proof fn lemma_view_injective(a: Self, b: Self)
        requires
            a@ == b@,
        ensures
            a == b,
    {
    }
}

/// The identifier of a consumer of resolved values.
#[derive(Clone, Copy, Debug, Eq, Hash, Ord, PartialEq, PartialOrd, Structural)]
pub struct ConsumerId(u32);

impl View for ConsumerId {
    type V = u32;

    closed spec fn view(&self) -> u32 {
        self.0
    }
}

impl ConsumerId {
    /// The identifier with this number.
    pub fn new(value: u32) -> (r: Self)
        ensures
            r@ == value,
    {
        ConsumerId(value)
    }

    /// The number.
    pub fn get(self) -> (r: u32)
        ensures
            r == self@,
    {
        self.0
    }

    /// Identifiers with the same number are equal.
    pub proof fn lemma_view_injective(a: Self, b: Self)
        requires
            a@ == b@,
        ensures
            a == b,
    {
    }
}

/// A number of absolute bits of precision.
#[derive(Clone, Copy, Debug, Eq, Hash, Ord, PartialEq, PartialOrd, Structural)]
pub struct AbsoluteBits(u32);

impl View for AbsoluteBits {
    type V = u32;

    closed spec fn view(&self) -> u32 {
        self.0
    }
}

impl AbsoluteBits {
    /// The identifier with this number.
    pub fn new(value: u32) -> (r: Self)
        ensures
            r@ == value,
    {
        AbsoluteBits(value)
    }

    /// The number.
    pub fn get(self) -> (r: u32)
        ensures
            r == self@,
    {
        self.0
    }

    /// Identifiers with the same number are equal.
    pub proof fn lemma_view_injective(a: Self, b: Self)
        requires
            a@ == b@,
        ensures
            a == b,
    {
    }
}

} // verus!
