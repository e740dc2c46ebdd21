//! Unsigned integers used as subscripts into arrays.

use vstd::prelude::*;

verus! {

/// An unsigned integer type that converts to and from `usize` subscripts.
pub trait Subscript: Sized + Copy {
    /// The largest value of the type.
    const MAX: Self;

    /// The value as a number.
    spec fn spec_subscript(&self) -> nat;

    /// The largest value as a number.
    spec fn spec_max() -> nat;

    /// Facts about the range of the type.
    proof fn lemma_range(a: Self)
        ensures
            a.spec_subscript() <= Self::spec_max(),
            Self::MAX.spec_subscript() == Self::spec_max(),
            0xFF <= Self::spec_max(),
    ;

    /// Two values with the same number are the same value.
    proof fn lemma_injective(a: Self, b: Self)
        ensures
            a.spec_subscript() == b.spec_subscript() ==> a == b,
    ;

    /// Converts a subscript, keeping its low bits (`subscript as Self`).
    fn from_subscript(subscript: usize) -> (r: Self)
        ensures
            r.spec_subscript() == subscript as nat % (Self::spec_max() + 1),
    ;

    /// Converts to a subscript (the type's range must fit in `usize`).
    fn into_subscript(self) -> (r: usize)
        requires
            Self::spec_max() <= usize::MAX,
        ensures
            r == self.spec_subscript(),
    ;
}

/// Converting a value to a subscript and back gives the value.
pub proof fn law_subscript_round_trip<I: Subscript>(x: I, subscript: usize, y: I)
    requires
        subscript == x.spec_subscript(),
        y.spec_subscript() == subscript as nat % (I::spec_max() + 1),
    ensures
        y == x,
{
    I::lemma_range(x);
    vstd::arithmetic::div_mod::lemma_small_mod(subscript as nat, I::spec_max() + 1);
    I::lemma_injective(x, y);
}

impl Subscript for usize {
    const MAX: usize = usize::MAX;

    open spec fn spec_subscript(&self) -> nat {
        *self as nat
    }

    open spec fn spec_max() -> nat {
        usize::MAX as nat
    }

    proof fn lemma_range(a: Self) {
    }

    proof fn lemma_injective(a: Self, b: Self) {
    }

    fn from_subscript(subscript: usize) -> (r: usize) {
        proof {
            vstd::arithmetic::div_mod::lemma_small_mod(subscript as nat, usize::MAX as nat + 1);
        }
        subscript
    }

    fn into_subscript(self) -> (r: usize) {
        self
    }
}

impl Subscript for u8 {
    const MAX: u8 = u8::MAX;

    open spec fn spec_subscript(&self) -> nat {
        *self as nat
    }

    open spec fn spec_max() -> nat {
        0xFF
    }

    proof fn lemma_range(a: Self) {
    }

    proof fn lemma_injective(a: Self, b: Self) {
    }

    fn from_subscript(subscript: usize) -> (r: u8) {
        assert((subscript as u8) as nat == subscript as nat % 0x100) by (bit_vector);
        subscript as u8
    }

    fn into_subscript(self) -> (r: usize) {
        self as usize
    }
}

impl Subscript for u16 {
    const MAX: u16 = u16::MAX;

    open spec fn spec_subscript(&self) -> nat {
        *self as nat
    }

    open spec fn spec_max() -> nat {
        0xFFFF
    }

    proof fn lemma_range(a: Self) {
    }

    proof fn lemma_injective(a: Self, b: Self) {
    }

    fn from_subscript(subscript: usize) -> (r: u16) {
        assert((subscript as u16) as nat == subscript as nat % 0x1_0000) by (bit_vector);
        subscript as u16
    }

    fn into_subscript(self) -> (r: usize) {
        self as usize
    }
}

impl Subscript for u32 {
    const MAX: u32 = u32::MAX;

    open spec fn spec_subscript(&self) -> nat {
        *self as nat
    }

    open spec fn spec_max() -> nat {
        0xFFFF_FFFF
    }

    proof fn lemma_range(a: Self) {
    }

    proof fn lemma_injective(a: Self, b: Self) {
    }

    fn from_subscript(subscript: usize) -> (r: u32) {
        assert((subscript as u32) as nat == subscript as nat % 0x1_0000_0000) by (bit_vector);
        subscript as u32
    }

    fn into_subscript(self) -> (r: usize) {
        self as usize
    }
}

impl Subscript for u64 {
    const MAX: u64 = u64::MAX;

    open spec fn spec_subscript(&self) -> nat {
        *self as nat
    }

    open spec fn spec_max() -> nat {
        0xFFFF_FFFF_FFFF_FFFF
    }

    proof fn lemma_range(a: Self) {
    }

    proof fn lemma_injective(a: Self, b: Self) {
    }

    fn from_subscript(subscript: usize) -> (r: u64) {
        assert((subscript as u64) as nat == subscript as nat % 0x1_0000_0000_0000_0000) by (bit_vector);
        subscript as u64
    }

    fn into_subscript(self) -> (r: usize) {
        self as usize
    }
}

} // verus!
