//! A set of small integers held in the bits of one machine word.

use vstd::prelude::*;
use vstd::std_specs::bits::u64_trailing_zeros;

verus! {

/// Whether bit `i` of `bits` is set.
pub open spec fn has_bit(bits: usize, i: nat) -> bool {
    i < usize::BITS && (bits >> i) & 1 == 1
}

/// The positions of the set bits of `bits`.
pub open spec fn bit_positions(bits: usize) -> Set<nat> {
    Set::new(|i: nat| has_bit(bits, i))
}

/// The numbers below `k` form a finite set.
proof fn lemma_below_finite(k: nat)
    ensures
        Set::new(|i: nat| i < k).finite(),
    decreases k,
{
    if k == 0 {
        assert(Set::new(|i: nat| i < k) =~= Set::<nat>::empty());
    } else {
        lemma_below_finite((k - 1) as nat);
        assert(Set::new(|i: nat| i < k) =~= Set::new(|i: nat| i < (k - 1) as nat).insert((k - 1) as nat));
    }
}

/// The positions of the set bits of a word form a finite set.
proof fn lemma_positions_finite(bits: usize)
    ensures
        bit_positions(bits).finite(),
{
    lemma_below_finite(usize::BITS as nat);
    vstd::set_lib::lemma_len_subset(bit_positions(bits), Set::new(|i: nat| i < usize::BITS as nat));
}

/// Setting bit `v` adds `v` to the positions and keeps the others.
proof fn lemma_set_bit(bits: usize, v: usize, i: usize)
    requires
        v < usize::BITS,
        i < usize::BITS,
    ensures
        ((bits | (1usize << v)) >> i) & 1 == 1 <==> (i == v || (bits >> i) & 1 == 1),
{
    assert(v < usize::BITS && i < usize::BITS ==> (((bits | (1usize << v)) >> i) & 1 == 1 <==> (i == v
        || (bits >> i) & 1 == 1))) by (bit_vector);
}

/// Clearing bit `v` removes `v` from the positions and keeps the others.
proof fn lemma_clear_bit(bits: usize, v: usize, i: usize)
    requires
        v < usize::BITS,
        i < usize::BITS,
    ensures
        ((bits & !(1usize << v)) >> i) & 1 == 1 <==> (i != v && (bits >> i) & 1 == 1),
{
    assert(v < usize::BITS && i < usize::BITS ==> (((bits & !(1usize << v)) >> i) & 1 == 1 <==> (i
        != v && (bits >> i) & 1 == 1))) by (bit_vector);
}

/// A set of integers below `usize::BITS`, one bit per integer.
#[derive(Debug, Default, Clone, Copy, PartialEq, Eq, Structural)]
pub struct BitSet {
    bits: usize,
}

impl View for BitSet {
    type V = Set<nat>;

    /// The integers in the set.
    closed spec fn view(&self) -> Set<nat> {
        bit_positions(self.bits)
    }
}

impl BitSet {
    /// The number of integers a set can hold.
    pub const BITS: usize = usize::BITS as usize;

    /// The raw bits.
    pub closed spec fn spec_bits(&self) -> usize {
        self.bits
    }

    /// Creates a set from raw bits.
    pub fn new(bits: usize) -> (r: Self)
        ensures
            r@ == bit_positions(bits),
            r.spec_bits() == bits,
    {
        BitSet { bits }
    }

    /// Every element of a set is below `BITS`, so a set is finite.
    pub proof fn lemma_bounded(&self)
        ensures
            forall|i: nat| #[trigger] self@.contains(i) ==> i < usize::BITS,
            self@.finite(),
    {
        lemma_positions_finite(self.bits);
    }

    /// The word with only bit `v` set holds exactly `v`.
    pub proof fn lemma_single(v: usize)
        requires
            v < usize::BITS,
        ensures
            bit_positions(1usize << v) == Set::<nat>::empty().insert(v as nat),
    {
        assert forall|i: nat| #[trigger] has_bit(1usize << v, i) == (i == v) by {
            if i < usize::BITS {
                let j = i as usize;
                assert(v < usize::BITS && j < usize::BITS ==> ((((1usize << v) >> j) & 1 == 1) == (j
                    == v))) by (bit_vector);
            }
        }
        assert(bit_positions(1usize << v) =~= Set::<nat>::empty().insert(v as nat));
    }

    /// The empty set.
    pub fn empty() -> (r: Self)
        ensures
            r@ == Set::<nat>::empty(),
    {
        let r = BitSet { bits: 0 };
        assert forall|i: nat| !has_bit(0, i) by {
            if i < usize::BITS {
                let j = i as usize;
                assert((0usize >> j) & 1 == 0) by (bit_vector);
            }
        }
        assert(bit_positions(r.bits) =~= Set::<nat>::empty());
        r
    }

    /// Adds `value`, which must be below `BITS`.
    pub fn insert(&mut self, value: usize)
        requires
            value < usize::BITS,
        ensures
            final(self)@ == old(self)@.insert(value as nat),
    {
        let ghost old_bits = self.bits;
        self.bits = self.bits | (1usize << value);
        proof {
            assert forall|i: nat| #[trigger] has_bit(self.bits, i) == (i == value || has_bit(old_bits, i)) by {
                if i < usize::BITS {
                    lemma_set_bit(old_bits, value, i as usize);
                }
            }
            assert(bit_positions(self.bits) =~= bit_positions(old_bits).insert(value as nat));
        }
    }

    /// Removes `value`, which must be below `BITS`.
    pub fn remove(&mut self, value: usize)
        requires
            value < usize::BITS,
        ensures
            final(self)@ == old(self)@.remove(value as nat),
    {
        let ghost old_bits = self.bits;
        self.bits = self.bits & !(1usize << value);
        proof {
            assert forall|i: nat| has_bit(self.bits, i) == (i != value && has_bit(old_bits, i)) by {
                if i < usize::BITS {
                    lemma_clear_bit(old_bits, value, i as usize);
                }
            }
            assert(bit_positions(self.bits) =~= bit_positions(old_bits).remove(value as nat));
        }
    }

    /// Whether `value`, which must be below `BITS`, is in the set.
    pub fn contains(&self, value: usize) -> (r: bool)
        requires
            value < usize::BITS,
        ensures
            r == self@.contains(value as nat),
    {
        let bits = self.bits;
        assert(value < usize::BITS ==> ((bits & (1usize << value)) != 0 <==> (bits >> value) & 1 == 1))
            by (bit_vector);
        (self.bits & (1usize << value)) != 0
    }

    /// Iteration over the integers of the set, in increasing order.
    pub fn iter(&self) -> (r: BitSetIter)
        ensures
            r@ == self@,
    {
        BitSetIter { remaining: self.bits }
    }
}

/// Iteration over the integers of a `BitSet`, in increasing order.
pub struct BitSetIter {
    remaining: usize,
}

impl View for BitSetIter {
    type V = Set<nat>;

    /// The integers not yet handed out.
    closed spec fn view(&self) -> Set<nat> {
        bit_positions(self.remaining)
    }
}

/// The bits of `y` below `k` are all zero, given each of them is.
proof fn lemma_low_bits_zero(y: u64, k: u64)
    requires
        k <= 64,
        forall|j: u64| 0 <= j < k ==> #[trigger] (y >> j) & 1u64 == 0u64,
    ensures
        k < 64 ==> y & sub_one(1u64 << k) == 0,
        k == 64 ==> y == 0,
    decreases k,
{
    if k == 0 {
        assert(y & sub_one(1u64 << 0u64) == 0) by (bit_vector);
    } else {
        let k1 = (k - 1) as u64;
        lemma_low_bits_zero(y, k1);
        assert((y >> k1) & 1u64 == 0u64);
        assert(k1 < 64 && y & sub_one(1u64 << k1) == 0 && (y >> k1) & 1u64 == 0u64 ==> (k1 + 1 < 64
            ==> y & sub_one(1u64 << ((k1 + 1) as u64)) == 0) && (k1 + 1 == 64 ==> y == 0))
            by (bit_vector);
    }
}

/// `v - 1` for a non-zero word, and `u64::MAX` for zero.
pub open spec fn sub_one(v: u64) -> u64 {
    if v == 0 {
        u64::MAX
    } else {
        (v - 1) as u64
    }
}

/// The lowest set bit of a non-zero word is the number of its trailing zeros,
/// and `x & (x - 1)` clears exactly that bit.
proof fn lemma_lowest_bit(x: usize)
    requires
        x != 0,
    ensures
        (u64_trailing_zeros(x as u64) as nat) < usize::BITS,
        has_bit(x, u64_trailing_zeros(x as u64) as nat),
        forall|i: nat| i < u64_trailing_zeros(x as u64) ==> !#[trigger] has_bit(x, i),
        forall|i: nat|
            #[trigger] has_bit(x & (x - 1) as usize, i) == (has_bit(x, i) && i
                != u64_trailing_zeros(x as u64)),
{
    let y = x as u64;
    vstd::std_specs::bits::axiom_u64_trailing_zeros(y);
    let tz = u64_trailing_zeros(y);
    assert(y != 0) by (bit_vector)
        requires
            x != 0,
            y == x as u64,
    ;
    let t = tz as u64;
    assert(t < 64);
    assert((y >> t) & 1u64 == 1u64);
    lemma_low_bits_zero(y, t);
    assert(t < usize::BITS) by (bit_vector)
        requires
            y == x as u64,
            (y >> t) & 1u64 == 1u64,
            t < 64,
    ;
    assert(((x >> (t as usize)) & 1 == 1)) by (bit_vector)
        requires
            y == x as u64,
            (y >> t) & 1u64 == 1u64,
            t < usize::BITS,
    ;
    assert forall|i: nat| i < tz implies !#[trigger] has_bit(x, i) by {
        let j = i as u64;
        assert((y >> j) & 1u64 == 0u64);
        assert((x >> (j as usize)) & 1 == 0) by (bit_vector)
            requires
                y == x as u64,
                (y >> j) & 1u64 == 0u64,
                j < 64,
        ;
    }
    assert forall|i: nat| #[trigger] has_bit(x & (x - 1) as usize, i) == (has_bit(x, i) && i != tz) by {
        if i < usize::BITS {
            let j = i as u64;
            assert(((y & sub_one(y)) >> j) & 1u64 == 1u64 <==> ((y >> j) & 1u64 == 1u64 && j != t))
                by (bit_vector)
                requires
                    y != 0,
                    t < 64,
                    j < 64,
                    (y >> t) & 1u64 == 1u64,
                    y & sub_one(1u64 << t) == 0,
            ;
            assert((((x & (x - 1) as usize) >> (j as usize)) & 1 == 1) == (((y & sub_one(y)) >> j)
                & 1u64 == 1u64) && ((x >> (j as usize)) & 1 == 1) == ((y >> j) & 1u64 == 1u64))
                by (bit_vector)
                requires
                    y == x as u64,
                    x != 0,
                    j < usize::BITS,
            ;
        }
    }
}

/// A whole pass of `BitSetIter::next`: if each call hands out `outs[k]`, the
/// least member of `sets[k]`, and leaves `sets[k + 1]`, that set without it
/// (as `next` ensures), then the members come out in strictly increasing
/// order, each is a member of the starting set, and every member of the
/// starting set is handed out or still left; a pass that ends on an empty set
/// hands out each member exactly once.
pub proof fn law_iter_pass(sets: Seq<Set<nat>>, outs: Seq<usize>)
    requires
        sets.len() == outs.len() + 1,
        forall|k: int|
            0 <= k < outs.len() ==> {
                &&& #[trigger] sets[k].contains(outs[k] as nat)
                &&& forall|i: nat| sets[k].contains(i) ==> outs[k] <= i
                &&& sets[k + 1] == sets[k].remove(outs[k] as nat)
            },
    ensures
        forall|i: int, j: int| 0 <= i < j < outs.len() ==> outs[i] < outs[j],
        forall|k: int| 0 <= k < outs.len() ==> sets[0].contains(#[trigger] outs[k] as nat),
        forall|x: nat|
            #[trigger] sets[0].contains(x) ==> sets[outs.len() as int].contains(x) || exists|k: int|
                0 <= k < outs.len() && outs[k] as nat == x,
    decreases outs.len(),
{
    if outs.len() > 0 {
        let ss = sets.drop_first();
        let os = outs.drop_first();
        assert forall|k: int| 0 <= k < os.len() implies {
            &&& #[trigger] ss[k].contains(os[k] as nat)
            &&& forall|i: nat| ss[k].contains(i) ==> os[k] <= i
            &&& ss[k + 1] == ss[k].remove(os[k] as nat)
        } by {
            assert(ss[k] == sets[k + 1] && ss[k + 1] == sets[k + 2] && os[k] == outs[k + 1]);
            assert(sets[k + 1].contains(outs[k + 1] as nat));
        }
        law_iter_pass(ss, os);
        assert(sets[0].contains(outs[0] as nat));
        assert(sets[1] == sets[0].remove(outs[0] as nat));
        assert forall|k: int| 0 <= k < outs.len() implies sets[0].contains(#[trigger] outs[k] as nat) by {
            if k > 0 {
                assert(os[k - 1] == outs[k]);
                assert(ss[0].contains(os[k - 1] as nat));
            }
        }
        assert forall|i: int, j: int| 0 <= i < j < outs.len() implies outs[i] < outs[j] by {
            if i > 0 {
                assert(os[i - 1] == outs[i] && os[j - 1] == outs[j]);
            } else {
                assert(os[j - 1] == outs[j]);
                assert(ss[0].contains(os[j - 1] as nat));
                assert(sets[0].contains(outs[j] as nat));
            }
        }
        assert forall|x: nat| #[trigger] sets[0].contains(x) implies sets[outs.len() as int].contains(x)
            || exists|k: int| 0 <= k < outs.len() && outs[k] as nat == x by {
            if x != outs[0] as nat {
                assert(ss[0].contains(x));
                assert(ss[os.len() as int] == sets[outs.len() as int]);
                if !sets[outs.len() as int].contains(x) {
                    let k = choose|k: int| 0 <= k < os.len() && os[k] as nat == x;
                    assert(outs[k + 1] as nat == x);
                }
            }
        }
    }
}

impl BitSetIter {
    /// The integers not yet handed out are finitely many, all below `BITS`.
    pub proof fn lemma_bounded(&self)
        ensures
            forall|i: nat| #[trigger] self@.contains(i) ==> i < usize::BITS,
            self@.finite(),
    {
        lemma_positions_finite(self.remaining);
    }

    /// The next integer, the smallest not yet handed out, or `None` at the end.
    pub fn next(&mut self) -> (r: Option<usize>)
        ensures
            r is None <==> old(self)@.is_empty(),
            r is Some ==> old(self)@.contains(r->0 as nat) && (forall|i: nat|
                #[trigger] old(self)@.contains(i) ==> r->0 <= i) && final(self)@ == old(self)@.remove(
                r->0 as nat,
            ),
            r is None ==> final(self)@ == old(self)@,
    {
        if self.remaining == 0 {
            proof {
                assert forall|i: nat| !has_bit(0, i) by {
                    if i < usize::BITS {
                        let j = i as usize;
                        assert((0usize >> j) & 1 == 0) by (bit_vector);
                    }
                }
                assert(bit_positions(self.remaining) =~= Set::<nat>::empty());
            }
            return None;
        }
        let x = self.remaining;
        let bit = (self.remaining as u64).trailing_zeros() as usize;
        proof {
            lemma_lowest_bit(x);
        }
        self.remaining = self.remaining & (self.remaining - 1);
        proof {
            assert(bit_positions(self.remaining) =~= bit_positions(x).remove(bit as nat));
            assert forall|i: nat| #[trigger] old(self)@.contains(i) implies bit <= i by {
                if i < bit {
                    assert(!has_bit(x, i));
                }
            }
        }
        Some(bit)
    }
}

} // verus!
