//! Packed entity handles with raw integer versions and identifiers.
//!
//! An entity packs a non-zero version into its upper bits and an identifier into
//! its lower bits; `locate` splits the identifier into a block number and an
//! offset within a block.

use vstd::prelude::*;
use crate::utils::Subscript;

verus! {

/// Operations on a packed entity handle.
pub trait EntityOps: Sized + Copy {
    /// The integer type of the version.
    type Ver: Subscript;

    /// The integer type of the identifier.
    type Id: Subscript;

    /// The version as a number.
    spec fn spec_ver(&self) -> nat;

    /// The identifier as a number.
    spec fn spec_id(&self) -> nat;

    /// The largest identifier.
    spec fn spec_id_mask() -> nat;

    /// The largest version.
    spec fn spec_ver_max() -> nat;

    /// An entity is determined by its version and identifier, which stay in range.
    proof fn lemma_parts(a: Self, b: Self)
        ensures
            a.spec_id() <= Self::spec_id_mask(),
            a.spec_ver() <= Self::spec_ver_max(),
            a.spec_id() == b.spec_id() && a.spec_ver() == b.spec_ver() ==> a == b,
    ;

    /// Creates an entity if the version is non-zero and the identifier is in range.
    fn new(ver: Self::Ver, id: Self::Id) -> (r: Option<Self>)
        ensures
            r is Some <==> (ver.spec_subscript() != 0 && id.spec_subscript() <= Self::spec_id_mask()),
            r is Some ==> r->0.spec_ver() == ver.spec_subscript() && r->0.spec_id()
                == id.spec_subscript(),
    ;

    /// Creates an entity from a version and an identifier known to be valid.
    fn new_unchecked(ver: Self::Ver, id: Self::Id) -> (r: Self)
        requires
            ver.spec_subscript() != 0,
            id.spec_subscript() <= Self::spec_id_mask(),
        ensures
            r.spec_ver() == ver.spec_subscript(),
            r.spec_id() == id.spec_subscript(),
    ;

    /// The version.
    fn ver(&self) -> (r: Self::Ver)
        ensures
            r.spec_subscript() == self.spec_ver(),
            1 <= self.spec_ver() <= Self::spec_ver_max(),
    ;

    /// The identifier.
    fn id(&self) -> (r: Self::Id)
        ensures
            r.spec_subscript() == self.spec_id(),
            self.spec_id() <= Self::spec_id_mask(),
    ;

    /// The same identifier with the next version, skipping zero on wrap-around.
    fn next_ver(self) -> (r: Self)
        ensures
            r.spec_id() == self.spec_id(),
            r.spec_ver() == (if self.spec_ver() == Self::spec_ver_max() {
                1
            } else {
                self.spec_ver() + 1
            }),
    ;

    /// Splits the identifier into the block number and the offset in blocks of `N`.
    fn locate<const N: usize>(&self) -> (r: (Self::Id, Self::Id))
        requires
            N > 0,
            Self::Id::spec_max() <= usize::MAX,
        ensures
            r.0.spec_subscript() == self.spec_id() / (N as nat),
            r.1.spec_subscript() == self.spec_id() % (N as nat),
    ;
}

/// 64-bit entity: a 16-bit version above a 48-bit identifier.
#[derive(Debug, Clone, Copy, PartialEq, Eq, Structural)]
pub struct Entity64 {
    raw: u64,
}

impl Entity64 {
    #[verifier::type_invariant]
    spec fn inv(self) -> bool {
        self.raw >> 48 >= 1
    }

    /// The packed integer.
    pub closed spec fn packed(self) -> u64 {
        self.raw
    }
}

impl EntityOps for Entity64 {
    type Ver = u16;

    type Id = u64;

    closed spec fn spec_ver(&self) -> nat {
        (self.packed() >> 48) as nat
    }

    closed spec fn spec_id(&self) -> nat {
        (self.packed() & 0x0000_FFFF_FFFF_FFFFu64) as nat
    }

    open spec fn spec_id_mask() -> nat {
        0x0000_FFFF_FFFF_FFFFu64 as nat
    }

    open spec fn spec_ver_max() -> nat {
        0xFFFFu64 as nat
    }

    proof fn lemma_parts(a: Self, b: Self) {
        let x = a.packed();
        let y = b.packed();
        assert(x & 0x0000_FFFF_FFFF_FFFFu64 <= 0x0000_FFFF_FFFF_FFFFu64 && x >> 48 <= 0xFFFFu64) by (bit_vector);
        assert((x & 0x0000_FFFF_FFFF_FFFFu64 == y & 0x0000_FFFF_FFFF_FFFFu64 && x >> 48 == y >> 48) ==> x == y) by (bit_vector);
    }

    fn new(ver: u16, id: u64) -> (r: Option<Self>) {
        if ver == 0 || id > 0x0000_FFFF_FFFF_FFFFu64 {
            None
        } else {
            Some(Self::new_unchecked(ver, id))
        }
    }

    fn new_unchecked(ver: u16, id: u64) -> (r: Self) {
        let v: u64 = ver as u64;
        let raw: u64 = (v << 48) | id;
        assert(id <= 0x0000_FFFF_FFFF_FFFFu64 && 1 <= ver ==> (((ver as u64) << 48) | id) & 0x0000_FFFF_FFFF_FFFFu64 == id && (((
        ver as u64) << 48) | id) >> 48 == ver as u64) by (bit_vector);
        Entity64 { raw }
    }

    fn ver(&self) -> (r: u16) {
        proof {
            use_type_invariant(self);
        }
        let raw = self.raw;
        assert(raw >> 48 <= 0xFFFFu64) by (bit_vector);
        (raw >> 48) as u16
    }

    fn id(&self) -> (r: u64) {
        let raw = self.raw;
        assert(raw & 0x0000_FFFF_FFFF_FFFFu64 <= 0x0000_FFFF_FFFF_FFFFu64) by (bit_vector);
        raw & 0x0000_FFFF_FFFF_FFFFu64
    }

    fn next_ver(self) -> (r: Self) {
        proof {
            use_type_invariant(&self);
            Self::lemma_parts(self, self);
        }
        let new_ver: u16 = match self.ver().wrapping_add(1) {
            0 => 1,
            n => n,
        };
        let id = self.id();
        Self::new_unchecked(new_ver, id)
    }

    fn locate<const N: usize>(&self) -> (r: (u64, u64)) {
        let subscript = self.id().into_subscript();
        assert(subscript % N <= subscript && subscript / N <= subscript) by (nonlinear_arith)
            requires
                N > 0,
        ;
        let index = (subscript / N) as u64;
        let offset = (subscript % N) as u64;
        (index, offset)
    }
}

/// 32-bit entity: an 8-bit version above a 24-bit identifier.
#[derive(Debug, Clone, Copy, PartialEq, Eq, Structural)]
pub struct Entity32 {
    raw: u32,
}

impl Entity32 {
    #[verifier::type_invariant]
    spec fn inv(self) -> bool {
        self.raw >> 24 >= 1
    }

    /// The packed integer.
    pub closed spec fn packed(self) -> u32 {
        self.raw
    }
}

impl EntityOps for Entity32 {
    type Ver = u8;

    type Id = u32;

    closed spec fn spec_ver(&self) -> nat {
        (self.packed() >> 24) as nat
    }

    closed spec fn spec_id(&self) -> nat {
        (self.packed() & 0x00FF_FFFFu32) as nat
    }

    open spec fn spec_id_mask() -> nat {
        0x00FF_FFFFu32 as nat
    }

    open spec fn spec_ver_max() -> nat {
        0xFFu32 as nat
    }

    proof fn lemma_parts(a: Self, b: Self) {
        let x = a.packed();
        let y = b.packed();
        assert(x & 0x00FF_FFFFu32 <= 0x00FF_FFFFu32 && x >> 24 <= 0xFFu32) by (bit_vector);
        assert((x & 0x00FF_FFFFu32 == y & 0x00FF_FFFFu32 && x >> 24 == y >> 24) ==> x == y) by (bit_vector);
    }

    fn new(ver: u8, id: u32) -> (r: Option<Self>) {
        if ver == 0 || id > 0x00FF_FFFFu32 {
            None
        } else {
            Some(Self::new_unchecked(ver, id))
        }
    }

    fn new_unchecked(ver: u8, id: u32) -> (r: Self) {
        let v: u32 = ver as u32;
        let raw: u32 = (v << 24) | id;
        assert(id <= 0x00FF_FFFFu32 && 1 <= ver ==> (((ver as u32) << 24) | id) & 0x00FF_FFFFu32 == id && (((
        ver as u32) << 24) | id) >> 24 == ver as u32) by (bit_vector);
        Entity32 { raw }
    }

    fn ver(&self) -> (r: u8) {
        proof {
            use_type_invariant(self);
        }
        let raw = self.raw;
        assert(raw >> 24 <= 0xFFu32) by (bit_vector);
        (raw >> 24) as u8
    }

    fn id(&self) -> (r: u32) {
        let raw = self.raw;
        assert(raw & 0x00FF_FFFFu32 <= 0x00FF_FFFFu32) by (bit_vector);
        raw & 0x00FF_FFFFu32
    }

    fn next_ver(self) -> (r: Self) {
        proof {
            use_type_invariant(&self);
            Self::lemma_parts(self, self);
        }
        let new_ver: u8 = match self.ver().wrapping_add(1) {
            0 => 1,
            n => n,
        };
        let id = self.id();
        Self::new_unchecked(new_ver, id)
    }

    fn locate<const N: usize>(&self) -> (r: (u32, u32)) {
        let subscript = self.id().into_subscript();
        assert(subscript % N <= subscript && subscript / N <= subscript) by (nonlinear_arith)
            requires
                N > 0,
        ;
        let index = (subscript / N) as u32;
        let offset = (subscript % N) as u32;
        (index, offset)
    }
}

/// The packed entity type chosen for typical use.
pub type Entity = Entity32;

} // verus!
