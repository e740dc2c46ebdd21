//! Entity identifiers and versions.
//!
//! An identifier is a bounded, non-negative integer whose largest valid value
//! is `MASK`; a version is a non-zero bounded integer that wraps back to its
//! minimum after its maximum.

use vstd::prelude::*;
use nonmax::{NonMaxU16, NonMaxU32, NonMaxU64};

verus! {

/// `NonMaxU16::new` followed by `NonMaxU16::get`: the crate's source builds a
/// non-max value exactly when the value is not `u16::MAX`, and `get` gives that
/// value back.
#[verifier::external_body]
fn nonmax_u16(value: u16) -> (r: Option<u16>)
    ensures
        r == (if value == u16::MAX { None } else { Some(value) }),
{
    match NonMaxU16::new(value) {
        Some(n) => Some(n.get()),
        None => None,
    }
}

/// `NonMaxU32::new` followed by `NonMaxU32::get` (see `nonmax_u16`).
#[verifier::external_body]
fn nonmax_u32(value: u32) -> (r: Option<u32>)
    ensures
        r == (if value == u32::MAX { None } else { Some(value) }),
{
    match NonMaxU32::new(value) {
        Some(n) => Some(n.get()),
        None => None,
    }
}

/// `NonMaxU64::new` followed by `NonMaxU64::get` (see `nonmax_u16`).
#[verifier::external_body]
fn nonmax_u64(value: u64) -> (r: Option<u64>)
    ensures
        r == (if value == u64::MAX { None } else { Some(value) }),
{
    match NonMaxU64::new(value) {
        Some(n) => Some(n.get()),
        None => None,
    }
}

/// Strongly typed entity identifier: a non-negative integer no larger than `MASK`.
pub trait EntityId: Sized + Copy {
    /// The underlying primitive integer type.
    type Base;

    /// The number of bits used for this identifier.
    const BITS: u32;

    /// The largest valid identifier; also the mask of the identifier bits.
    const MASK: Self::Base;


    /// The identifier as a number.
    spec fn spec_index(&self) -> nat;

    /// `MASK` as a number.
    spec fn spec_mask() -> nat;

    /// A raw base value as a number.
    spec fn spec_base(value: Self::Base) -> nat;

    /// Facts about the constants of the identifier type.
    proof fn lemma_constants()
        ensures
            0x0FFF <= Self::spec_mask(),
            Self::spec_base(Self::MASK) == Self::spec_mask(),
    ;

    /// Two identifiers with the same number are the same identifier.
    proof fn lemma_index_injective(a: Self, b: Self)
        ensures
            a.spec_index() == b.spec_index() ==> a == b,
    ;

    /// Two raw values with the same number are the same value.
    proof fn lemma_base_injective(a: Self::Base, b: Self::Base)
        ensures
            Self::spec_base(a) == Self::spec_base(b) ==> a == b,
    ;

    /// Creates an identifier if `value <= MASK`.
    fn new(value: Self::Base) -> (r: Option<Self>)
        ensures
            r is Some <==> Self::spec_base(value) <= Self::spec_mask(),
            r is Some ==> r->0.spec_index() == Self::spec_base(value),
    ;

    /// Creates an identifier from a value known to be at most `MASK`.
    fn new_unchecked(value: Self::Base) -> (r: Self)
        requires
            Self::spec_base(value) <= Self::spec_mask(),
        ensures
            r.spec_index() == Self::spec_base(value),
    ;

    /// The underlying raw integer value.
    fn get(&self) -> (r: Self::Base)
        ensures
            Self::spec_base(r) == self.spec_index(),
            self.spec_index() <= Self::spec_mask(),
    ;

    /// The identifier as a `usize` index (the identifier range must fit in `usize`).
    fn into_index(&self) -> (r: usize)
        requires
            Self::spec_mask() <= usize::MAX,
        ensures
            r == self.spec_index(),
            r <= Self::spec_mask(),
    ;

    /// Creates an identifier from an index known to be at most `MASK`.
    fn from_index(index: usize) -> (r: Self)
        requires
            index <= Self::spec_mask(),
        ensures
            r.spec_index() == index,
    ;

    /// The smallest identifier, zero.
    fn zero() -> (r: Self)
        ensures
            r.spec_index() == 0,
    ;

    /// The following identifier, or `None` after `MASK`.
    fn next(&self) -> (r: Option<Self>)
        ensures
            r is Some <==> self.spec_index() < Self::spec_mask(),
            r is Some ==> r->0.spec_index() == self.spec_index() + 1,
    ;
}

/// Entity identifier of 12 bits.
#[derive(Debug, Clone, Copy, PartialEq, Eq, Structural)]
pub struct Id12 {
    raw: u16,
}

impl Id12 {
    #[verifier::type_invariant]
    spec fn inv(self) -> bool {
        self.raw <= 0x0FFF
    }

    /// The identifier whose number is `raw`.
    pub closed spec fn from_raw(raw: u16) -> Id12 {
        Id12 { raw }
    }

    /// The number of `from_raw(raw)` is `raw`.
    pub proof fn lemma_from_raw(raw: u16)
        ensures
            Self::from_raw(raw).spec_index() == raw,
    {
    }
}

impl EntityId for Id12 {
    type Base = u16;

    const BITS: u32 = 12;

    const MASK: u16 = 0x0FFF;

    closed spec fn spec_index(&self) -> nat {
        self.raw as nat
    }

    open spec fn spec_mask() -> nat {
        0x0FFF
    }

    open spec fn spec_base(value: u16) -> nat {
        value as nat
    }

    proof fn lemma_constants() {
    }

    proof fn lemma_index_injective(a: Self, b: Self) {
    }

    proof fn lemma_base_injective(a: u16, b: u16) {
    }

    fn new(value: u16) -> (r: Option<Self>) {
        if value > Self::MASK {
            None
        } else {
            Some(Self::new_unchecked(value))
        }
    }

    fn new_unchecked(value: u16) -> (r: Self) {
        let checked = nonmax_u16(value);
        proof {
            assert(checked is Some);
        }
        match checked {
            Some(raw) => Id12 { raw },
            None => Id12 { raw: value },
        }
    }

    fn get(&self) -> (r: u16) {
        proof {
            use_type_invariant(self);
        }
        self.raw
    }

    fn into_index(&self) -> (r: usize) {
        proof {
            use_type_invariant(self);
        }
        self.raw as usize
    }

    fn from_index(index: usize) -> (r: Self) {
        Self::new_unchecked(index as u16)
    }

    fn zero() -> (r: Self) {
        Id12 { raw: 0 }
    }

    fn next(&self) -> (r: Option<Self>) {
        proof {
            use_type_invariant(self);
        }
        if self.raw < Self::MASK {
            Some(Id12 { raw: self.raw + 1 })
        } else {
            None
        }
    }
}

/// Entity identifier of 24 bits.
#[derive(Debug, Clone, Copy, PartialEq, Eq, Structural)]
pub struct Id24 {
    raw: u32,
}

impl Id24 {
    #[verifier::type_invariant]
    spec fn inv(self) -> bool {
        self.raw <= 0x00FF_FFFF
    }

    /// The identifier whose number is `raw`.
    pub closed spec fn from_raw(raw: u32) -> Id24 {
        Id24 { raw }
    }

    /// The number of `from_raw(raw)` is `raw`.
    pub proof fn lemma_from_raw(raw: u32)
        ensures
            Self::from_raw(raw).spec_index() == raw,
    {
    }
}

impl EntityId for Id24 {
    type Base = u32;

    const BITS: u32 = 24;

    const MASK: u32 = 0x00FF_FFFF;

    closed spec fn spec_index(&self) -> nat {
        self.raw as nat
    }

    open spec fn spec_mask() -> nat {
        0x00FF_FFFF
    }

    open spec fn spec_base(value: u32) -> nat {
        value as nat
    }

    proof fn lemma_constants() {
    }

    proof fn lemma_index_injective(a: Self, b: Self) {
    }

    proof fn lemma_base_injective(a: u32, b: u32) {
    }

    fn new(value: u32) -> (r: Option<Self>) {
        if value > Self::MASK {
            None
        } else {
            Some(Self::new_unchecked(value))
        }
    }

    fn new_unchecked(value: u32) -> (r: Self) {
        let checked = nonmax_u32(value);
        proof {
            assert(checked is Some);
        }
        match checked {
            Some(raw) => Id24 { raw },
            None => Id24 { raw: value },
        }
    }

    fn get(&self) -> (r: u32) {
        proof {
            use_type_invariant(self);
        }
        self.raw
    }

    fn into_index(&self) -> (r: usize) {
        proof {
            use_type_invariant(self);
        }
        self.raw as usize
    }

    fn from_index(index: usize) -> (r: Self) {
        Self::new_unchecked(index as u32)
    }

    fn zero() -> (r: Self) {
        Id24 { raw: 0 }
    }

    fn next(&self) -> (r: Option<Self>) {
        proof {
            use_type_invariant(self);
        }
        if self.raw < Self::MASK {
            Some(Id24 { raw: self.raw + 1 })
        } else {
            None
        }
    }
}

/// Entity identifier of 48 bits.
#[derive(Debug, Clone, Copy, PartialEq, Eq, Structural)]
pub struct Id48 {
    raw: u64,
}

impl Id48 {
    #[verifier::type_invariant]
    spec fn inv(self) -> bool {
        self.raw <= 0x0000_FFFF_FFFF_FFFF
    }

    /// The identifier whose number is `raw`.
    pub closed spec fn from_raw(raw: u64) -> Id48 {
        Id48 { raw }
    }

    /// The number of `from_raw(raw)` is `raw`.
    pub proof fn lemma_from_raw(raw: u64)
        ensures
            Self::from_raw(raw).spec_index() == raw,
    {
    }
}

impl EntityId for Id48 {
    type Base = u64;

    const BITS: u32 = 48;

    const MASK: u64 = 0x0000_FFFF_FFFF_FFFF;

    closed spec fn spec_index(&self) -> nat {
        self.raw as nat
    }

    open spec fn spec_mask() -> nat {
        0x0000_FFFF_FFFF_FFFF
    }

    open spec fn spec_base(value: u64) -> nat {
        value as nat
    }

    proof fn lemma_constants() {
    }

    proof fn lemma_index_injective(a: Self, b: Self) {
    }

    proof fn lemma_base_injective(a: u64, b: u64) {
    }

    fn new(value: u64) -> (r: Option<Self>) {
        if value > Self::MASK {
            None
        } else {
            Some(Self::new_unchecked(value))
        }
    }

    fn new_unchecked(value: u64) -> (r: Self) {
        let checked = nonmax_u64(value);
        proof {
            assert(checked is Some);
        }
        match checked {
            Some(raw) => Id48 { raw },
            None => Id48 { raw: value },
        }
    }

    fn get(&self) -> (r: u64) {
        proof {
            use_type_invariant(self);
        }
        self.raw
    }

    fn into_index(&self) -> (r: usize) {
        proof {
            use_type_invariant(self);
        }
        self.raw as usize
    }

    fn from_index(index: usize) -> (r: Self) {
        Self::new_unchecked(index as u64)
    }

    fn zero() -> (r: Self) {
        Id48 { raw: 0 }
    }

    fn next(&self) -> (r: Option<Self>) {
        proof {
            use_type_invariant(self);
        }
        if self.raw < Self::MASK {
            Some(Id48 { raw: self.raw + 1 })
        } else {
            None
        }
    }
}

/// Reading back an identifier made from a raw value (by `new` or
/// `new_unchecked`) with `get` gives that value.
pub proof fn law_id_round_trip<I: EntityId>(value: I::Base, id: I, raw: I::Base)
    requires
        id.spec_index() == I::spec_base(value),
        I::spec_base(raw) == id.spec_index(),
    ensures
        raw == value,
{
    I::lemma_base_injective(raw, value);
}

/// Reading back a version made from a raw value (by `new` or
/// `new_unchecked`) with `get` gives that value.
pub proof fn law_ver_round_trip<V: EntityVer>(value: V::Base, ver: V, raw: V::Base)
    requires
        ver.spec_value() == V::spec_base(value),
        V::spec_base(raw) == ver.spec_value(),
    ensures
        raw == value,
{
    V::lemma_base_injective(raw, value);
}

/// The version that follows version `v` when versions run from one to `max`:
/// `v + 1`, wrapping back to one after `max`.
pub open spec fn next_version(v: nat, max: nat) -> nat {
    if v < max {
        v + 1
    } else {
        1
    }
}

/// Strongly typed entity version: a non-zero integer no larger than `max()`,
/// which wraps back to `min()` after `max()`.
pub trait EntityVer: Sized + Copy {
    /// The underlying primitive integer type.
    type Base;

    /// The version as a number.
    spec fn spec_value(&self) -> nat;

    /// The largest version as a number.
    spec fn spec_max() -> nat;

    /// A raw base value as a number.
    spec fn spec_base(value: Self::Base) -> nat;

    /// Facts about the version range.
    proof fn lemma_constants()
        ensures
            1 <= Self::spec_max(),
    ;

    /// Two versions with the same number are the same version.
    proof fn lemma_value_injective(a: Self, b: Self)
        ensures
            a.spec_value() == b.spec_value() ==> a == b,
    ;

    /// Two raw values with the same number are the same value.
    proof fn lemma_base_injective(a: Self::Base, b: Self::Base)
        ensures
            Self::spec_base(a) == Self::spec_base(b) ==> a == b,
    ;

    /// The minimum version, one.
    fn min() -> (r: Self)
        ensures
            r.spec_value() == 1,
    ;

    /// The maximum version.
    fn max() -> (r: Self)
        ensures
            r.spec_value() == Self::spec_max(),
    ;

    /// Creates a version if `value != 0 && value <= max`.
    fn new(value: Self::Base) -> (r: Option<Self>)
        ensures
            r is Some <==> 1 <= Self::spec_base(value) <= Self::spec_max(),
            r is Some ==> r->0.spec_value() == Self::spec_base(value),
    ;

    /// Creates a version from a value known to be valid.
    fn new_unchecked(value: Self::Base) -> (r: Self)
        requires
            1 <= Self::spec_base(value) <= Self::spec_max(),
        ensures
            r.spec_value() == Self::spec_base(value),
    ;

    /// The raw integer value.
    fn get(&self) -> (r: Self::Base)
        ensures
            Self::spec_base(r) == self.spec_value(),
            1 <= self.spec_value() <= Self::spec_max(),
    ;

    /// The next version, wrapping to `min()` after `max()`.
    fn next(self) -> (r: Self)
        ensures
            r.spec_value() == next_version(self.spec_value(), Self::spec_max()),
    ;
}

/// Entity version of 16 bits, `1..=0xFFFF`.
#[derive(Debug, Clone, Copy, PartialEq, Eq, Structural)]
pub struct Ver16 {
    raw: u16,
}

impl Ver16 {
    #[verifier::type_invariant]
    spec fn inv(self) -> bool {
        1 <= self.raw <= 0xFFFF
    }

    /// The version whose number is `raw`.
    pub closed spec fn from_raw(raw: u16) -> Ver16 {
        Ver16 { raw }
    }

    /// The number of `from_raw(raw)` is `raw`.
    pub proof fn lemma_from_raw(raw: u16)
        ensures
            Self::from_raw(raw).spec_value() == raw,
    {
    }
}

impl EntityVer for Ver16 {
    type Base = u16;

    closed spec fn spec_value(&self) -> nat {
        self.raw as nat
    }

    open spec fn spec_max() -> nat {
        0xFFFF
    }

    open spec fn spec_base(value: u16) -> nat {
        value as nat
    }

    proof fn lemma_constants() {
    }

    proof fn lemma_value_injective(a: Self, b: Self) {
    }

    proof fn lemma_base_injective(a: u16, b: u16) {
    }

    fn min() -> (r: Self) {
        Ver16 { raw: 1 }
    }

    fn max() -> (r: Self) {
        Ver16 { raw: 0xFFFF }
    }

    fn new(value: u16) -> (r: Option<Self>) {
        if value == 0 || value > 0xFFFF {
            None
        } else {
            Some(Self::new_unchecked(value))
        }
    }

    fn new_unchecked(value: u16) -> (r: Self) {
        Ver16 { raw: value }
    }

    fn get(&self) -> (r: u16) {
        proof {
            use_type_invariant(self);
        }
        self.raw
    }

    fn next(self) -> (r: Self) {
        proof {
            use_type_invariant(&self);
        }
        match self.raw.checked_add(1) {
            Some(n) => {
                if n <= 0xFFFF {
                    Ver16 { raw: n }
                } else {
                    Self::min()
                }
            },
            None => Self::min(),
        }
    }
}

/// Entity version of 8 bits, `1..=0xFF`.
#[derive(Debug, Clone, Copy, PartialEq, Eq, Structural)]
pub struct Ver8 {
    raw: u8,
}

impl Ver8 {
    #[verifier::type_invariant]
    spec fn inv(self) -> bool {
        1 <= self.raw <= 0xFF
    }

    /// The version whose number is `raw`.
    pub closed spec fn from_raw(raw: u8) -> Ver8 {
        Ver8 { raw }
    }

    /// The number of `from_raw(raw)` is `raw`.
    pub proof fn lemma_from_raw(raw: u8)
        ensures
            Self::from_raw(raw).spec_value() == raw,
    {
    }
}

impl EntityVer for Ver8 {
    type Base = u8;

    closed spec fn spec_value(&self) -> nat {
        self.raw as nat
    }

    open spec fn spec_max() -> nat {
        0xFF
    }

    open spec fn spec_base(value: u8) -> nat {
        value as nat
    }

    proof fn lemma_constants() {
    }

    proof fn lemma_value_injective(a: Self, b: Self) {
    }

    proof fn lemma_base_injective(a: u8, b: u8) {
    }

    fn min() -> (r: Self) {
        Ver8 { raw: 1 }
    }

    fn max() -> (r: Self) {
        Ver8 { raw: 0xFF }
    }

    fn new(value: u8) -> (r: Option<Self>) {
        if value == 0 || value > 0xFF {
            None
        } else {
            Some(Self::new_unchecked(value))
        }
    }

    fn new_unchecked(value: u8) -> (r: Self) {
        Ver8 { raw: value }
    }

    fn get(&self) -> (r: u8) {
        proof {
            use_type_invariant(self);
        }
        self.raw
    }

    fn next(self) -> (r: Self) {
        proof {
            use_type_invariant(&self);
        }
        match self.raw.checked_add(1) {
            Some(n) => {
                if n <= 0xFF {
                    Ver8 { raw: n }
                } else {
                    Self::min()
                }
            },
            None => Self::min(),
        }
    }
}

/// Entity version of 4 bits, `1..=0x0F`.
#[derive(Debug, Clone, Copy, PartialEq, Eq, Structural)]
pub struct Ver4 {
    raw: u8,
}

impl Ver4 {
    #[verifier::type_invariant]
    spec fn inv(self) -> bool {
        1 <= self.raw <= 0x0F
    }

    /// The version whose number is `raw`.
    pub closed spec fn from_raw(raw: u8) -> Ver4 {
        Ver4 { raw }
    }

    /// The number of `from_raw(raw)` is `raw`.
    pub proof fn lemma_from_raw(raw: u8)
        ensures
            Self::from_raw(raw).spec_value() == raw,
    {
    }
}

impl EntityVer for Ver4 {
    type Base = u8;

    closed spec fn spec_value(&self) -> nat {
        self.raw as nat
    }

    open spec fn spec_max() -> nat {
        0x0F
    }

    open spec fn spec_base(value: u8) -> nat {
        value as nat
    }

    proof fn lemma_constants() {
    }

    proof fn lemma_value_injective(a: Self, b: Self) {
    }

    proof fn lemma_base_injective(a: u8, b: u8) {
    }

    fn min() -> (r: Self) {
        Ver4 { raw: 1 }
    }

    fn max() -> (r: Self) {
        Ver4 { raw: 0x0F }
    }

    fn new(value: u8) -> (r: Option<Self>) {
        if value == 0 || value > 0x0F {
            None
        } else {
            Some(Self::new_unchecked(value))
        }
    }

    fn new_unchecked(value: u8) -> (r: Self) {
        Ver4 { raw: value }
    }

    fn get(&self) -> (r: u8) {
        proof {
            use_type_invariant(self);
        }
        self.raw
    }

    fn next(self) -> (r: Self) {
        proof {
            use_type_invariant(&self);
        }
        match self.raw.checked_add(1) {
            Some(n) => {
                if n <= 0x0F {
                    Ver4 { raw: n }
                } else {
                    Self::min()
                }
            },
            None => Self::min(),
        }
    }
}

} // verus!
