//! A position in a slice that is moved about like a pointer.
use vstd::prelude::*;

verus! {

/// A slice position with pointer-style arithmetic.
#[derive(PartialEq, Eq, Structural, Clone, Copy)]
pub struct FakeUsizePtr(usize);

impl View for FakeUsizePtr {
    type V = nat;

    closed spec fn view(&self) -> nat {
        self.0 as nat
    }
}

impl FakeUsizePtr {
    /// The position zero.
    pub fn null_mut() -> (r: Self)
        ensures
            r@ == 0,
    {
        FakeUsizePtr(0)
    }

    /// The position `count` places further on.
    pub fn add(self, count: usize) -> (r: Self)
        requires
            self@ + count <= usize::MAX,
        ensures
            r@ == self@ + count,
    {
        FakeUsizePtr(self.0 + count)
    }

    /// The position `count` places back.
    pub fn sub(self, count: usize) -> (r: Self)
        requires
            count <= self@,
        ensures
            r@ == self@ - count,
    {
        FakeUsizePtr(self.0 - count)
    }

    /// The position as an index.
    pub fn addr(self) -> (r: usize)
        ensures
            r == self@,
    {
        self.0
    }
}

} // verus!
