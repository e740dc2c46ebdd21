//! Entity handles: an identifier and a version packed into one integer.
//!
//! The lower `Id::BITS` bits of the packed integer hold the identifier and the
//! upper bits hold the version, which is never zero, so the packed integer is
//! never zero either.

use vstd::prelude::*;
use crate::entity_fields::{next_version, EntityId, EntityVer, Id12, Id24, Id48, Ver4, Ver8, Ver16};

pub mod entity;

verus! {

/// A strongly typed entity handle with read-only access to its identifier and version.
pub trait Entity: Sized + Copy {
    /// The identifier type.
    type Id: EntityId;

    /// The version type.
    type Ver: EntityVer;

    /// The identifier of this entity.
    spec fn spec_id(&self) -> Self::Id;

    /// The version of this entity.
    spec fn spec_ver(&self) -> Self::Ver;

    /// An entity is determined by its identifier and its version.
    proof fn lemma_parts_injective(a: Self, b: Self)
        ensures
            a.spec_id() == b.spec_id() && a.spec_ver() == b.spec_ver() ==> a == b,
    ;

    /// Returns the entity's identifier.
    fn id(&self) -> (r: Self::Id)
        ensures
            r == self.spec_id(),
    ;

    /// Returns the entity's version.
    fn ver(&self) -> (r: Self::Ver)
        ensures
            r == self.spec_ver(),
    ;
}

/// Construction and version advancement of entity handles.
pub trait EntityInternal: Entity {
    /// Creates an entity with the given identifier and the minimum version.
    fn new(id: Self::Id) -> (r: Self)
        ensures
            r.spec_id() == id,
            r.spec_ver().spec_value() == 1,
    ;

    /// Creates an entity from an identifier and a version.
    fn combine(id: Self::Id, ver: Self::Ver) -> (r: Self)
        ensures
            r.spec_id() == id,
            r.spec_ver() == ver,
    ;

    /// The same identifier with the next version.
    fn next_ver(self) -> (r: Self)
        ensures
            r.spec_id() == self.spec_id(),
            r.spec_ver().spec_value() == next_version(self.spec_ver().spec_value(), Self::Ver::spec_max()),
    ;
}

/// 64-bit entity: 48 bits of identifier and 16 bits of version.
#[derive(Debug, Clone, Copy, PartialEq, Eq, Hash, Structural)]
pub struct Entity64 {
    raw: u64,
}

impl Entity64 {
    #[verifier::type_invariant]
    spec fn inv(self) -> bool {
        self.raw >> 48 >= 1
    }

    /// The packed integer.
    pub closed spec fn packed(self) -> u64 {
        self.raw
    }
}

impl Entity for Entity64 {
    type Id = Id48;

    type Ver = Ver16;

    closed spec fn spec_id(&self) -> Id48 {
        Id48::from_raw((self.packed() & 0x0000_FFFF_FFFF_FFFFu64) as u64)
    }

    closed spec fn spec_ver(&self) -> Ver16 {
        Ver16::from_raw((self.packed() >> 48) as u16)
    }

    proof fn lemma_parts_injective(a: Self, b: Self) {
        let x = a.packed();
        let y = b.packed();
        Id48::lemma_from_raw((x & 0x0000_FFFF_FFFF_FFFFu64) as u64);
        Id48::lemma_from_raw((y & 0x0000_FFFF_FFFF_FFFFu64) as u64);
        Ver16::lemma_from_raw((x >> 48) as u16);
        Ver16::lemma_from_raw((y >> 48) as u16);
        assert(((x & 0x0000_FFFF_FFFF_FFFFu64) as u64 == (y & 0x0000_FFFF_FFFF_FFFFu64) as u64 && (x >> 48) as u16 == (
        y >> 48) as u16) ==> x == y) by (bit_vector);
    }

    fn id(&self) -> (r: Id48) {
        let raw = self.raw;
        let masked: u64 = raw & 0x0000_FFFF_FFFF_FFFFu64;
        assert(raw & 0x0000_FFFF_FFFF_FFFFu64 <= 0x0000_FFFF_FFFF_FFFFu64) by (bit_vector);
        let r = Id48::new_unchecked(masked as u64);
        proof {
            Id48::lemma_from_raw(masked as u64);
            Id48::lemma_index_injective(r, self.spec_id());
        }
        r
    }

    fn ver(&self) -> (r: Ver16) {
        proof {
            use_type_invariant(self);
        }
        let raw = self.raw;
        assert(raw >> 48 <= 0xFFFFu64) by (bit_vector);
        let shifted: u64 = raw >> 48;
        let r = Ver16::new_unchecked(shifted as u16);
        proof {
            Ver16::lemma_from_raw(shifted as u16);
            Ver16::lemma_value_injective(r, self.spec_ver());
        }
        r
    }
}

impl EntityInternal for Entity64 {
    fn new(id: Id48) -> (r: Self) {
        Self::combine(id, Ver16::min())
    }

    fn combine(id: Id48, ver: Ver16) -> (r: Self) {
        let i: u64 = id.get() as u64;
        let vb: u16 = ver.get();
        let v: u64 = vb as u64;
        let raw: u64 = (v << 48) | i;
        proof {
            assert(i <= 0x0000_FFFF_FFFF_FFFFu64 && 1 <= vb && (vb as u64) <= 0xFFFFu64 ==> ((((vb as u64) << 48) | i) & 0x0000_FFFF_FFFF_FFFFu64) as u64
                == i as u64 && ((((vb as u64) << 48) | i) >> 48) as u16 == vb && (((
            vb as u64) << 48) | i) >> 48 >= 1) by (bit_vector);
        }
        let r = Entity64 { raw };
        proof {
            Id48::lemma_from_raw(i as u64);
            Id48::lemma_index_injective(r.spec_id(), id);
            Ver16::lemma_from_raw(vb);
            Ver16::lemma_value_injective(r.spec_ver(), ver);
        }
        r
    }

    fn next_ver(self) -> (r: Self) {
        Self::combine(self.id(), self.ver().next())
    }
}

/// 32-bit entity: 24 bits of identifier and 8 bits of version.
#[derive(Debug, Clone, Copy, PartialEq, Eq, Hash, Structural)]
pub struct Entity32 {
    raw: u32,
}

impl Entity32 {
    #[verifier::type_invariant]
    spec fn inv(self) -> bool {
        self.raw >> 24 >= 1
    }

    /// The packed integer.
    pub closed spec fn packed(self) -> u32 {
        self.raw
    }
}

impl Entity for Entity32 {
    type Id = Id24;

    type Ver = Ver8;

    closed spec fn spec_id(&self) -> Id24 {
        Id24::from_raw((self.packed() & 0x00FF_FFFFu32) as u32)
    }

    closed spec fn spec_ver(&self) -> Ver8 {
        Ver8::from_raw((self.packed() >> 24) as u8)
    }

    proof fn lemma_parts_injective(a: Self, b: Self) {
        let x = a.packed();
        let y = b.packed();
        Id24::lemma_from_raw((x & 0x00FF_FFFFu32) as u32);
        Id24::lemma_from_raw((y & 0x00FF_FFFFu32) as u32);
        Ver8::lemma_from_raw((x >> 24) as u8);
        Ver8::lemma_from_raw((y >> 24) as u8);
        assert(((x & 0x00FF_FFFFu32) as u32 == (y & 0x00FF_FFFFu32) as u32 && (x >> 24) as u8 == (
        y >> 24) as u8) ==> x == y) by (bit_vector);
    }

    fn id(&self) -> (r: Id24) {
        let raw = self.raw;
        let masked: u32 = raw & 0x00FF_FFFFu32;
        assert(raw & 0x00FF_FFFFu32 <= 0x00FF_FFFFu32) by (bit_vector);
        let r = Id24::new_unchecked(masked as u32);
        proof {
            Id24::lemma_from_raw(masked as u32);
            Id24::lemma_index_injective(r, self.spec_id());
        }
        r
    }

    fn ver(&self) -> (r: Ver8) {
        proof {
            use_type_invariant(self);
        }
        let raw = self.raw;
        assert(raw >> 24 <= 0xFFu32) by (bit_vector);
        let shifted: u32 = raw >> 24;
        let r = Ver8::new_unchecked(shifted as u8);
        proof {
            Ver8::lemma_from_raw(shifted as u8);
            Ver8::lemma_value_injective(r, self.spec_ver());
        }
        r
    }
}

impl EntityInternal for Entity32 {
    fn new(id: Id24) -> (r: Self) {
        Self::combine(id, Ver8::min())
    }

    fn combine(id: Id24, ver: Ver8) -> (r: Self) {
        let i: u32 = id.get() as u32;
        let vb: u8 = ver.get();
        let v: u32 = vb as u32;
        let raw: u32 = (v << 24) | i;
        proof {
            assert(i <= 0x00FF_FFFFu32 && 1 <= vb && (vb as u32) <= 0xFFu32 ==> ((((vb as u32) << 24) | i) & 0x00FF_FFFFu32) as u32
                == i as u32 && ((((vb as u32) << 24) | i) >> 24) as u8 == vb && (((
            vb as u32) << 24) | i) >> 24 >= 1) by (bit_vector);
        }
        let r = Entity32 { raw };
        proof {
            Id24::lemma_from_raw(i as u32);
            Id24::lemma_index_injective(r.spec_id(), id);
            Ver8::lemma_from_raw(vb);
            Ver8::lemma_value_injective(r.spec_ver(), ver);
        }
        r
    }

    fn next_ver(self) -> (r: Self) {
        Self::combine(self.id(), self.ver().next())
    }
}

/// 16-bit entity: 12 bits of identifier and 4 bits of version.
#[derive(Debug, Clone, Copy, PartialEq, Eq, Hash, Structural)]
pub struct Entity16 {
    raw: u16,
}

impl Entity16 {
    #[verifier::type_invariant]
    spec fn inv(self) -> bool {
        self.raw >> 12 >= 1
    }

    /// The packed integer.
    pub closed spec fn packed(self) -> u16 {
        self.raw
    }
}

impl Entity for Entity16 {
    type Id = Id12;

    type Ver = Ver4;

    closed spec fn spec_id(&self) -> Id12 {
        Id12::from_raw((self.packed() & 0x0FFFu16) as u16)
    }

    closed spec fn spec_ver(&self) -> Ver4 {
        Ver4::from_raw((self.packed() >> 12) as u8)
    }

    proof fn lemma_parts_injective(a: Self, b: Self) {
        let x = a.packed();
        let y = b.packed();
        Id12::lemma_from_raw((x & 0x0FFFu16) as u16);
        Id12::lemma_from_raw((y & 0x0FFFu16) as u16);
        Ver4::lemma_from_raw((x >> 12) as u8);
        Ver4::lemma_from_raw((y >> 12) as u8);
        assert(((x & 0x0FFFu16) as u16 == (y & 0x0FFFu16) as u16 && (x >> 12) as u8 == (
        y >> 12) as u8) ==> x == y) by (bit_vector);
    }

    fn id(&self) -> (r: Id12) {
        let raw = self.raw;
        let masked: u16 = raw & 0x0FFFu16;
        assert(raw & 0x0FFFu16 <= 0x0FFFu16) by (bit_vector);
        let r = Id12::new_unchecked(masked as u16);
        proof {
            Id12::lemma_from_raw(masked as u16);
            Id12::lemma_index_injective(r, self.spec_id());
        }
        r
    }

    fn ver(&self) -> (r: Ver4) {
        proof {
            use_type_invariant(self);
        }
        let raw = self.raw;
        assert(raw >> 12 <= 0x0Fu16) by (bit_vector);
        let shifted: u16 = raw >> 12;
        let r = Ver4::new_unchecked(shifted as u8);
        proof {
            Ver4::lemma_from_raw(shifted as u8);
            Ver4::lemma_value_injective(r, self.spec_ver());
        }
        r
    }
}

impl EntityInternal for Entity16 {
    fn new(id: Id12) -> (r: Self) {
        Self::combine(id, Ver4::min())
    }

    fn combine(id: Id12, ver: Ver4) -> (r: Self) {
        let i: u16 = id.get() as u16;
        let vb: u8 = ver.get();
        let v: u16 = vb as u16;
        let raw: u16 = (v << 12) | i;
        proof {
            assert(i <= 0x0FFFu16 && 1 <= vb && (vb as u16) <= 0x0Fu16 ==> ((((vb as u16) << 12) | i) & 0x0FFFu16) as u16
                == i as u16 && ((((vb as u16) << 12) | i) >> 12) as u8 == vb && (((
            vb as u16) << 12) | i) >> 12 >= 1) by (bit_vector);
        }
        let r = Entity16 { raw };
        proof {
            Id12::lemma_from_raw(i as u16);
            Id12::lemma_index_injective(r.spec_id(), id);
            Ver4::lemma_from_raw(vb);
            Ver4::lemma_value_injective(r.spec_ver(), ver);
        }
        r
    }

    fn next_ver(self) -> (r: Self) {
        Self::combine(self.id(), self.ver().next())
    }
}

/// The entity type chosen for typical use.
pub type DefaultEntity = Entity32;

} // verus!
