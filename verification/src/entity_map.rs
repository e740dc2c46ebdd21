//! A map from entities to values.
//!
//! `EntityMap` associates each entity identifier with one value (and the entity
//! that was inserted with it). Identifiers are split into fixed-size blocks;
//! each block is a sparse set (`Pool`) holding a sparse array from identifier
//! offset to dense position and a dense array of the stored pairs.

use vstd::prelude::*;
use crate::entity::Entity;
use crate::entity_fields::EntityId;
use vstd::arithmetic::power2::pow2;

verus! {

/// Removes the element at `index` by moving the last element into its place,
/// and returns the removed element.
pub fn swap_remove_unchecked<T>(vec: &mut Vec<T>, index: usize) -> (r: T)
    requires
        index < old(vec).len(),
    ensures
        r == old(vec)@[index as int],
        final(vec)@ == old(vec)@.update(index as int, old(vec)@.last()).drop_last(),
{
    vec.swap_remove(index)
}

/// `r` is the least power of two that is at least `n`.
pub open spec fn is_next_power_of_two(r: nat, n: nat) -> bool {
    &&& exists|k: nat| r == pow2(k)
    &&& n <= r
    &&& (r == 1 || r / 2 < n)
}

/// The block size for values of `size` bytes: the least power of two at least
/// `4096nat / size`, clamped to `8..=64`.
pub open spec fn is_block_size(r: nat, size: nat) -> bool {
    exists|p: nat|
        #![trigger is_next_power_of_two(p, 4096nat / size)]
        is_next_power_of_two(p, 4096nat / size) && r == (if p < 8 {
            8
        } else if p > 64 {
            64
        } else {
            p
        })
}

/// The least power of two that is at least `n`.
pub fn next_power_of_two(n: usize) -> (r: usize)
    requires
        n <= usize::MAX / 2 + 1,
    ensures
        is_next_power_of_two(r as nat, n as nat),
{
    let mut p: usize = 1;
    let ghost mut k: nat = 0;
    proof {
        vstd::arithmetic::power2::lemma2_to64();
    }
    while p < n
        invariant
            p == pow2(k),
            1 <= p,
            p <= 2 * n || p == 1,
            p == 1 || p / 2 < n,
            n <= usize::MAX / 2 + 1,
        decreases 2 * n + 1 - p,
    {
        proof {
            vstd::arithmetic::power2::lemma_pow2_unfold(k + 1);
        }
        p = p * 2;
        proof {
            k = k + 1;
        }
    }
    assert(p == pow2(k));
    p
}

/// The block size for values of `size` bytes.
pub fn block_size(size: usize) -> (r: usize)
    requires
        size > 0,
    ensures
        is_block_size(r as nat, size as nat),
        8 <= r <= 64,
{
    let min_block_size: usize = 8;
    let max_block_size: usize = 64;
    let page_size: usize = 4096;
    let block_size = next_power_of_two(page_size / size);
    let r = if block_size < min_block_size {
        min_block_size
    } else if block_size > max_block_size {
        max_block_size
    } else {
        block_size
    };
    assert(is_next_power_of_two(block_size as nat, 4096nat / (size as nat)));
    r
}

/// A fixed-capacity sparse set from identifier offsets to values.
pub struct Pool<T, I: EntityId> {
    /// Sparse array: offset => dense position.
    indices: Vec<Option<I>>,
    /// Dense array of (offset, value) pairs.
    values: Vec<(I, T)>,
}

impl<T, I: EntityId> Pool<T, I> {
    /// Dense position of the value stored at offset `k` (meaningful when occupied).
    pub closed spec fn dense_of(&self, k: nat) -> nat {
        self.indices@[k as int]->0.spec_index()
    }

    /// Whether offset `k` holds a value.
    pub closed spec fn occupied(&self, k: nat) -> bool {
        k < self.indices@.len() && self.indices@[k as int] is Some
    }

    /// The occupied offsets.
    pub closed spec fn keys(&self) -> Set<nat> {
        Set::new(|k: nat| self.occupied(k))
    }

    /// The stored values, by offset.
    pub closed spec fn view(&self) -> Map<nat, T> {
        Map::new(|k: nat| self.occupied(k), |k: nat| self.values@[self.dense_of(k) as int].1)
    }

    /// The number of offsets the pool covers.
    pub closed spec fn spec_capacity(&self) -> nat {
        self.indices@.len()
    }

    pub closed spec fn wf(&self) -> bool {
        &&& I::spec_mask() <= usize::MAX
        &&& self.indices@.len() <= I::spec_mask() + 1
        &&& forall|k: nat| #[trigger]
            self.occupied(k) ==> self.dense_of(k) < self.values@.len()
                && self.values@[self.dense_of(k) as int].0.spec_index() == k
        &&& forall|d: int|
            0 <= d < self.values@.len() ==> {
                let k = #[trigger] self.values@[d].0.spec_index();
                &&& self.occupied(k)
                &&& self.dense_of(k) == d
            }
        &&& self.keys().finite()
        &&& self.keys().len() == self.values@.len()
    }

    /// `b` has the offsets and dense order of `a`, possibly with other values.
    pub closed spec fn same_shape(a: Self, b: Self) -> bool {
        &&& b.indices@ == a.indices@
        &&& b.values@.len() == a.values@.len()
        &&& forall|d: int| 0 <= d < a.values@.len() ==> #[trigger] b.values@[d].0 == a.values@[d].0
    }

    /// A pool with the shape of a well-formed pool is well-formed.
    pub proof fn lemma_same_shape(a: Self, b: Self)
        requires
            a.wf(),
            Self::same_shape(a, b),
        ensures
            b.wf(),
            b.keys() == a.keys(),
    {
        assert(b.keys() =~= a.keys());
        assert forall|k: nat| #[trigger] b.occupied(k) implies b.dense_of(k) < b.values@.len()
            && b.values@[b.dense_of(k) as int].0.spec_index() == k by {
            assert(a.occupied(k));
        }
        assert forall|d: int| 0 <= d < b.values@.len() implies {
            let k = #[trigger] b.values@[d].0.spec_index();
            &&& b.occupied(k)
            &&& b.dense_of(k) == d
        } by {
            assert(a.values@[d].0 == b.values@[d].0);
        }
    }

    /// A pool with a free offset below its capacity is not full.
    pub proof fn lemma_not_full(&self, k: nat)
        requires
            self.wf(),
            k < self.spec_capacity(),
            !self.view().contains_key(k),
        ensures
            self.view().len() < self.spec_capacity(),
    {
        let cap = self.spec_capacity();
        let all = Set::<nat>::range(0, cap);
        <nat as vstd::set_lib::FiniteRange>::range_properties(0, cap);
        assert(self.keys() =~= self.view().dom());
        assert(self.keys().subset_of(all.remove(k)));
        vstd::set_lib::lemma_len_subset(self.keys(), all.remove(k));
    }

    /// Creates an empty pool covering `capacity` offsets.
    pub fn new(capacity: usize) -> (r: Self)
        requires
            I::spec_mask() <= usize::MAX,
            capacity <= I::spec_mask() + 1,
        ensures
            r.wf(),
            r.spec_capacity() == capacity,
            r.view() == Map::<nat, T>::empty(),
    {
        let mut indices: Vec<Option<I>> = Vec::new();
        let mut i: usize = 0;
        while i < capacity
            invariant
                i <= capacity,
                indices@.len() == i,
                forall|k: int| 0 <= k < i ==> indices@[k] is None,
            decreases capacity - i,
        {
            indices.push(None);
            i = i + 1;
        }
        let r = Pool { indices, values: Vec::new() };
        assert(r.view() =~= Map::<nat, T>::empty());
        r
    }

    /// The number of stored values.
    pub fn len(&self) -> (r: usize)
        requires
            self.wf(),
        ensures
            r == self.view().len(),
    {
        self.values.len()
    }

    /// The number of offsets the pool covers.
    pub fn capacity(&self) -> (r: usize)
        ensures
            r == self.spec_capacity(),
    {
        self.indices.len()
    }

    /// Whether no value is stored.
    pub fn is_empty(&self) -> (r: bool)
        requires
            self.wf(),
        ensures
            r == (self.view().len() == 0),
    {
        self.values.len() == 0
    }

    /// Whether every offset holds a value.
    pub fn is_full(&self) -> (r: bool)
        requires
            self.wf(),
        ensures
            r == (self.view().len() == self.spec_capacity()),
    {
        self.len() == self.capacity()
    }

    /// Whether `index` holds a value; false for offsets beyond the capacity.
    pub fn contains(&self, index: I) -> (r: bool)
        requires
            self.wf(),
        ensures
            r == self.view().contains_key(index.spec_index()),
    {
        if index.into_index() >= self.capacity() {
            false
        } else {
            self.contains_unchecked(index)
        }
    }

    /// Whether `index`, known to be within the capacity, holds a value.
    pub fn contains_unchecked(&self, index: I) -> (r: bool)
        requires
            self.wf(),
            index.spec_index() < self.spec_capacity(),
        ensures
            r == self.view().contains_key(index.spec_index()),
    {
        match &self.indices[index.into_index()] {
            None => false,
            Some(_) => true,
        }
    }

    /// The value at `index`, if any.
    pub fn get(&self, index: I) -> (r: Option<&T>)
        requires
            self.wf(),
        ensures
            r == (if self.view().contains_key(index.spec_index()) {
                Some(&self.view()[index.spec_index()])
            } else {
                None
            }),
    {
        if self.contains(index) {
            Some(self.get_unchecked(index))
        } else {
            None
        }
    }

    /// The value at `index`, which must hold one.
    pub fn get_unchecked(&self, index: I) -> (r: &T)
        requires
            self.wf(),
            self.view().contains_key(index.spec_index()),
        ensures
            *r == self.view()[index.spec_index()],
    {
        let k = index.into_index();
        let dense = match &self.indices[k] {
            Some(i) => *i,
            None => index,
        };
        assert(self.occupied(k as nat));
        &self.values[dense.into_index()].1
    }

    /// The stored values in dense order.
    pub closed spec fn dense(&self) -> Seq<T> {
        self.values@.map_values(|x: (I, T)| x.1)
    }

    /// The offset of the `d`-th value in dense order.
    pub closed spec fn dense_key(&self, d: int) -> nat {
        self.values@[d].0.spec_index()
    }

    /// The dense order lists every stored value exactly once.
    pub proof fn lemma_dense(&self)
        requires
            self.wf(),
        ensures
            self.dense().len() == self.view().len(),
            forall|d: int|
                0 <= d < self.dense().len() ==> #[trigger] self.view().contains_key(self.dense_key(d))
                    && self.view()[self.dense_key(d)] == self.dense()[d],
            forall|d: int, e: int|
                0 <= d < e < self.dense().len() ==> #[trigger] self.dense_key(d) != #[trigger] self.dense_key(e),
            forall|k: nat| #[trigger]
                self.view().contains_key(k) ==> exists|d: int|
                    0 <= d < self.dense().len() && #[trigger] self.dense_key(d) == k,
    {
        assert forall|d: int| 0 <= d < self.dense().len() implies #[trigger] self.view().contains_key(
            self.dense_key(d),
        ) && self.view()[self.dense_key(d)] == self.dense()[d] by {
            assert(self.occupied(self.values@[d].0.spec_index()));
        }
        assert forall|d: int, e: int| 0 <= d < e < self.dense().len() implies #[trigger] self.dense_key(d)
            != #[trigger] self.dense_key(e) by {
            assert(self.occupied(self.values@[d].0.spec_index()));
            assert(self.occupied(self.values@[e].0.spec_index()));
        }
        assert forall|k: nat| #[trigger] self.view().contains_key(k) implies exists|d: int|
            0 <= d < self.dense().len() && #[trigger] self.dense_key(d) == k by {
            assert(self.occupied(k));
            let d = self.dense_of(k) as int;
            assert(self.dense_key(d) == k);
        }
        assert(self.keys() =~= self.view().dom());
    }

    /// The stored values, in dense order.
    pub fn iter(&self) -> (r: Vec<&T>)
        ensures
            r@.len() == self.dense().len(),
            forall|d: int| 0 <= d < r@.len() ==> *r@[d] == self.dense()[d],
    {
        let mut r: Vec<&T> = Vec::new();
        let mut d: usize = 0;
        while d < self.values.len()
            invariant
                d <= self.values@.len(),
                r@.len() == d,
                forall|e: int| 0 <= e < d ==> *r@[e] == self.values@[e].1,
            decreases self.values@.len() - d,
        {
            r.push(&self.values[d].1);
            d = d + 1;
        }
        r
    }

    /// Mutable iteration over the stored values, in dense order. The pool ends
    /// with the pairs the cursor ends with; when their offsets are unchanged
    /// (as `next` keeps them), it has its old shape.
    pub fn iter_mut(&mut self) -> (r: PoolIterMut<'_, T, I>)
        ensures
            r.valid(),
            r.position() == 0,
            r.target() == old(self).pairs(),
            final(self).pairs() == (*final(r.values_ref()))@,
            same_offsets(old(self).pairs(), final(self).pairs()) ==> Self::same_shape(
                *old(self),
                *final(self),
            ),
    {
        PoolIterMut { values: self.values.as_mut_slice(), pos: 0 }
    }

    /// The stored `(offset, value)` pairs in dense order.
    pub closed spec fn pairs(&self) -> Seq<(I, T)> {
        self.values@
    }

    /// The dense pairs list each stored value once, next to its offset, and the
    /// stored values are finitely many.
    pub proof fn lemma_pairs(&self)
        requires
            self.wf(),
        ensures
            self.view().dom().finite(),
            self.pairs().len() == self.view().len(),
            forall|d: int|
                0 <= d < self.pairs().len() ==> #[trigger] self.view().contains_key(
                    self.pairs()[d].0.spec_index(),
                ) && self.view()[self.pairs()[d].0.spec_index()] == self.pairs()[d].1,
    {
        self.lemma_dense();
        assert forall|d: int| 0 <= d < self.pairs().len() implies #[trigger] self.view().contains_key(
            self.pairs()[d].0.spec_index(),
        ) && self.view()[self.pairs()[d].0.spec_index()] == self.pairs()[d].1 by {
            assert(self.dense_key(d) == self.pairs()[d].0.spec_index());
            assert(self.dense()[d] == self.pairs()[d].1);
        }
    }

    /// Mutable access to the value at `index`, which must hold one.
    pub fn get_unchecked_mut(&mut self, index: I) -> (r: &mut T)
        requires
            old(self).wf(),
            old(self).view().contains_key(index.spec_index()),
        ensures
            *r == old(self).view()[index.spec_index()],
            Self::same_shape(*old(self), *final(self)),
            final(self).wf(),
            final(self).spec_capacity() == old(self).spec_capacity(),
            final(self).view() == old(self).view().insert(index.spec_index(), *final(r)),
    {
        let k = index.into_index();
        let dense = match &self.indices[k] {
            Some(i) => *i,
            None => index,
        };
        assert(self.occupied(k as nat));
        let d = dense.into_index();
        proof {
            assert forall|b: Self| Self::same_shape(*old(self), b) implies #[trigger] b.wf() by {
                Self::lemma_same_shape(*old(self), b);
            }
        }
        &mut self.values[d].1
    }

    /// Mutable access to the value at `index`, if any.
    pub fn get_mut(&mut self, index: I) -> (r: Option<&mut T>)
        requires
            old(self).wf(),
        ensures
            final(self).wf(),
            final(self).spec_capacity() == old(self).spec_capacity(),
            old(self).view().contains_key(index.spec_index()) ==> r is Some && *r->0 == old(
                self,
            ).view()[index.spec_index()] && final(self).view() == old(self).view().insert(
                index.spec_index(),
                *final(r->0),
            ),
            !old(self).view().contains_key(index.spec_index()) ==> r is None && *final(self)
                == *old(self),
    {
        if self.contains(index) {
            Some(self.get_unchecked_mut(index))
        } else {
            None
        }
    }

    /// Stores `value` at `index`, returning the value it replaces.
    pub fn insert(&mut self, index: I, value: T) -> (r: Option<T>)
        requires
            old(self).wf(),
            index.spec_index() < old(self).spec_capacity(),
            old(self).view().contains_key(index.spec_index()) || old(self).view().len()
                < old(self).spec_capacity(),
        ensures
            final(self).wf(),
            final(self).spec_capacity() == old(self).spec_capacity(),
            final(self).view() == old(self).view().insert(index.spec_index(), value),
            r == (if old(self).view().contains_key(index.spec_index()) {
                Some(old(self).view()[index.spec_index()])
            } else {
                None
            }),
    {
        if self.contains_unchecked(index) {
            let slot = self.get_unchecked_mut(index);
            let mut replaced = value;
            std::mem::swap(slot, &mut replaced);
            Some(replaced)
        } else {
            let ghost old_self = *self;
            let k = index.into_index();
            let value_index = I::from_index(self.values.len());
            self.values.push((index, value));
            self.indices.set(k, Some(value_index));
            proof {
                let kk = k as nat;
                assert(self.keys() =~= old_self.keys().insert(kk));
                assert forall|j: nat| #[trigger] self.occupied(j) implies self.dense_of(j)
                    < self.values@.len() && self.values@[self.dense_of(j) as int].0.spec_index()
                    == j by {
                    if j != kk {
                        assert(old_self.occupied(j));
                    }
                }
                assert forall|d: int| 0 <= d < self.values@.len() implies {
                    let j = #[trigger] self.values@[d].0.spec_index();
                    &&& self.occupied(j)
                    &&& self.dense_of(j) == d
                } by {
                    if d < old_self.values@.len() {
                        let j = old_self.values@[d].0.spec_index();
                        assert(old_self.occupied(j));
                        assert(j != kk);
                    }
                }
                assert(self.view() =~= old_self.view().insert(kk, value));
            }
            None
        }
    }

    /// Removes the value at `index`, returning it if there was one.
    pub fn remove(&mut self, index: I) -> (r: Option<T>)
        requires
            old(self).wf(),
            index.spec_index() < old(self).spec_capacity(),
        ensures
            final(self).wf(),
            final(self).spec_capacity() == old(self).spec_capacity(),
            final(self).view() == old(self).view().remove(index.spec_index()),
            r == (if old(self).view().contains_key(index.spec_index()) {
                Some(old(self).view()[index.spec_index()])
            } else {
                None
            }),
    {
        let ghost old_self = *self;
        let k = index.into_index();
        let dense_target_slot = match &self.indices[k] {
            Some(i) => *i,
            None => {
                proof {
                    assert(self.view().remove(k as nat) =~= self.view());
                }
                return None;
            },
        };
        proof {
            assert(old_self.occupied(k as nat));
        }
        let dense_last_slot = self.values.len() - 1;
        let dense_last_entity = self.values[dense_last_slot].0;
        let target = dense_target_slot.into_index();
        let (removed_entity, removed_value) = swap_remove_unchecked(&mut self.values, target);
        proof {
            assert(old_self.occupied(dense_last_entity.spec_index()));
        }
        self.indices.set(dense_last_entity.into_index(), Some(dense_target_slot));
        self.indices.set(k, None);
        proof {
            let kk = k as nat;
            let lk = dense_last_entity.spec_index();
            assert(self.keys() =~= old_self.keys().remove(kk));
            assert forall|j: nat| #[trigger] self.occupied(j) implies self.dense_of(j)
                < self.values@.len() && self.values@[self.dense_of(j) as int].0.spec_index()
                == j by {
                assert(old_self.occupied(j));
                if j != lk {
                    let dj = old_self.dense_of(j);
                    assert(old_self.values@[dj as int].0.spec_index() == j);
                    assert(dj != target);
                    assert(dj != dense_last_slot);
                }
            }
            assert forall|d: int| 0 <= d < self.values@.len() implies {
                let j = #[trigger] self.values@[d].0.spec_index();
                &&& self.occupied(j)
                &&& self.dense_of(j) == d
            } by {
                if d != target {
                    let j = old_self.values@[d].0.spec_index();
                    assert(old_self.occupied(j));
                    assert(j != kk);
                    assert(j != lk);
                }
            }
            assert(self.view() =~= old_self.view().remove(kk));
        }
        Some(removed_value)
    }
}

/// A sequence listing each element of a finite set exactly once is as long as the set.
proof fn lemma_distinct_keys_len(keys: Seq<nat>, dom: Set<nat>)
    requires
        dom.finite(),
        forall|i: int, j: int| 0 <= i < j < keys.len() ==> keys[i] != keys[j],
        forall|i: int| 0 <= i < keys.len() ==> dom.contains(#[trigger] keys[i]),
        forall|n: nat| #[trigger] dom.contains(n) ==> keys.contains(n),
    ensures
        keys.len() == dom.len(),
{
    assert(keys.no_duplicates()) by {
        assert forall|i: int, j: int|
            0 <= i < keys.len() && 0 <= j < keys.len() && i != j implies keys[i] != keys[j] by {
            if i > j {
                assert(keys[j] != keys[i]);
            }
        }
    }
    assert(keys.to_set() =~= dom);
    keys.unique_seq_to_set();
}

/// An identifier is determined by its pool number and offset.
proof fn lemma_slot(m: nat, n: nat, b: nat)
    requires
        b > 0,
        m / b == n / b,
        m % b == n % b,
    ensures
        m == n,
{
    vstd::arithmetic::div_mod::lemma_fundamental_div_mod(m as int, b as int);
    vstd::arithmetic::div_mod::lemma_fundamental_div_mod(n as int, b as int);
}

/// `b` lists the same offsets as `a`, in the same order, possibly with other values.
pub open spec fn same_offsets<I, T>(a: Seq<(I, T)>, b: Seq<(I, T)>) -> bool {
    &&& b.len() == a.len()
    &&& forall|d: int| 0 <= d < a.len() ==> #[trigger] b[d].0 == a[d].0
}

/// Mutable iteration over the values of a `Pool`, in dense order; each call of
/// `next` hands out one value.
pub struct PoolIterMut<'a, T, I: EntityId> {
    values: &'a mut [(I, T)],
    pos: usize,
}

impl<'a, T, I: EntityId> PoolIterMut<'a, T, I> {
    /// The dense `(offset, value)` pairs, as they stand now.
    pub closed spec fn target(&self) -> Seq<(I, T)> {
        self.values@
    }

    /// The dense position of the next value to hand out.
    pub closed spec fn position(&self) -> nat {
        self.pos as nat
    }

    /// The cursor's internal invariant.
    pub closed spec fn valid(&self) -> bool {
        self.pos <= self.values@.len()
    }

    /// The borrow of the pairs being iterated.
    pub closed spec fn values_ref(&self) -> &'a mut [(I, T)] {
        self.values
    }

    /// Once the cursor is no longer used, the pairs end as its target.
    pub proof fn lemma_resolved(&self)
        requires
            has_resolved(*self),
        ensures
            (*final(self.values_ref()))@ == self.target(),
    {
    }

    /// Hands out the next value for mutation, or `None` at the end.
    pub fn next(&mut self) -> (r: Option<&mut T>)
        requires
            old(self).valid(),
        ensures
            final(self).valid(),
            (*final(final(self).values_ref()))@ == (*final(old(self).values_ref()))@,
            same_offsets(old(self).target(), final(self).target()),
            old(self).position() < old(self).target().len() ==> r is Some && *r->0 == old(self).target()[old(
                self,
            ).position() as int].1 && final(self).position() == old(self).position() + 1
                && final(self).target() == old(self).target().update(
                old(self).position() as int,
                (old(self).target()[old(self).position() as int].0, *final(r->0)),
            ),
            old(self).position() >= old(self).target().len() ==> r is None && final(self).target()
                == old(self).target() && final(self).position() == old(self).position(),
    {
        if self.pos < self.values.len() {
            let p = self.pos;
            self.pos = self.pos + 1;
            let pair = &mut self.values[p];
            Some(&mut pair.1)
        } else {
            None
        }
    }
}

/// A map from entities to values, keyed by entity identifier.
///
/// Identifiers are split into blocks of `block` consecutive identifiers; block
/// `p` is stored in `pools[p]`, created on first insertion.
pub struct EntityMap<E: Entity, T> {
    pools: Vec<Pool<(E, T), E::Id>>,
    len: usize,
    block: usize,
}

impl<E: Entity, T> View for EntityMap<E, T> {
    type V = Map<nat, (E, T)>;

    /// The stored pairs, by entity identifier.
    closed spec fn view(&self) -> Map<nat, (E, T)> {
        self.entries()
    }
}

impl<E: Entity, T> EntityMap<E, T> {
    /// The key of an entity: its identifier as a number.
    pub open spec fn key(entity: E) -> nat {
        entity.spec_id().spec_index()
    }

    /// The size in bytes of a stored pair; a pair of zero size, which no
    /// entity type has, counts as one byte.
    #[verifier::opaque]
    pub open spec fn pair_size() -> nat {
        if vstd::layout::size_of::<(E, T)>() == 0 {
            1
        } else {
            vstd::layout::size_of::<(E, T)>()
        }
    }

    /// Whether identifier `n` holds a pair.
    spec fn has(&self, n: nat) -> bool {
        &&& n / (self.block as nat) < self.pools@.len()
        &&& self.pools@[(n / (self.block as nat)) as int].view().contains_key(n % (self.block as nat))
    }

    /// The pair stored at identifier `n`.
    spec fn at(&self, n: nat) -> (E, T) {
        self.pools@[(n / (self.block as nat)) as int].view()[n % (self.block as nat)]
    }

    /// The stored pairs, by entity identifier.
    spec fn entries(&self) -> Map<nat, (E, T)> {
        Map::new(|n: nat| self.has(n), |n: nat| self.at(n))
    }

    /// The map's internal invariant.
    pub closed spec fn wf(&self) -> bool {
        &&& E::Id::spec_mask() < usize::MAX
        &&& 8 <= self.block <= 64
        &&& is_block_size(self.block as nat, Self::pair_size())
        &&& forall|p: int|
            0 <= p < self.pools@.len() ==> #[trigger] self.pools@[p].wf()
                && self.pools@[p].spec_capacity() == self.block
        &&& forall|n: nat| #[trigger] self.has(n) ==> Self::key(self.at(n).0) == n && n <= E::Id::spec_mask()
        &&& self.entries().dom().finite()
        &&& self.len == self.entries().dom().len()
    }

    /// Every stored pair holds the entity whose identifier is its key.
    pub proof fn lemma_keys(&self)
        requires
            self.wf(),
        ensures
            forall|n: nat| #[trigger] self@.contains_key(n) ==> Self::key(self@[n].0) == n,
            self@.dom().finite(),
    {
    }

    /// When only pool `index` changes, only identifier `n` of that pool can change.
    #[verifier::spinoff_prover]
    proof fn lemma_pool_changed(a: Self, b: Self, index: nat, n: nat)
        requires
            a.wf(),
            b.block == a.block,
            b.pools@.len() == a.pools@.len(),
            index < a.pools@.len(),
            n / (a.block as nat) == index,
            forall|p: int| 0 <= p < a.pools@.len() && p != index ==> b.pools@[p] == a.pools@[p],
            b.pools@[index as int].wf(),
            b.pools@[index as int].spec_capacity() == a.block,
            forall|k: nat|
                k != n % (a.block as nat) ==> (#[trigger] b.pools@[index as int].view().contains_key(k)
                    == a.pools@[index as int].view().contains_key(k)) && (a.pools@[index as int].view().contains_key(k)
                    ==> b.pools@[index as int].view()[k] == a.pools@[index as int].view()[k]),
        ensures
            forall|m: nat| m != n ==> #[trigger] b.has(m) == a.has(m) && (a.has(m) ==> b.at(m) == a.at(m)),
            b.has(n) == b.pools@[index as int].view().contains_key(n % (a.block as nat)),
            forall|p: int| 0 <= p < b.pools@.len() ==> #[trigger] b.pools@[p].wf(),
            forall|p: int| 0 <= p < b.pools@.len() ==> #[trigger] b.pools@[p].spec_capacity() == b.block,
    {
        let bs = a.block as nat;
        assert forall|m: nat| m != n implies #[trigger] b.has(m) == a.has(m) && (a.has(m) ==> b.at(m)
            == a.at(m)) by {
            if m / bs == index {
                if m % bs == n % bs {
                    lemma_slot(m, n, bs);
                }
                assert(b.pools@[index as int].view().contains_key(m % bs) == a.pools@[index as int].view().contains_key(
                    m % bs,
                ));
            } else if m / bs < a.pools@.len() {
                assert(b.pools@[(m / bs) as int] == a.pools@[(m / bs) as int]);
            }
        }
        assert forall|p: int| 0 <= p < b.pools@.len() implies #[trigger] b.pools@[p].wf() by {
            if p != index {
                assert(a.pools@[p].wf());
            }
        }
        assert forall|p: int| 0 <= p < b.pools@.len() implies #[trigger] b.pools@[p].spec_capacity()
            == b.block by {
            if p != index {
                assert(a.pools@[p].wf());
            }
        }
    }

    /// `b` is `a` with only the value stored at offset `off` of pool `index` replaced.
    spec fn replaced_at(a: Self, b: Self, index: nat, off: nat) -> bool {
        &&& b.block == a.block
        &&& b.len == a.len
        &&& b.pools@.len() == a.pools@.len()
        &&& index < a.pools@.len()
        &&& forall|p: int| 0 <= p < a.pools@.len() && p != index ==> b.pools@[p] == a.pools@[p]
        &&& Pool::same_shape(a.pools@[index as int], b.pools@[index as int])
        &&& b.pools@[index as int].view() == a.pools@[index as int].view().insert(
            off,
            (a.pools@[index as int].view()[off].0, b.pools@[index as int].view()[off].1),
        )
    }

    /// Replacing a stored value keeps the map well-formed and changes only that value.
    proof fn lemma_replaced_at(a: Self, b: Self, index: nat, n: nat)
        requires
            a.wf(),
            a.has(n),
            n / (a.block as nat) == index,
            Self::replaced_at(a, b, index, n % (a.block as nat)),
        ensures
            b.wf(),
            b.entries() == a.entries().insert(n, (a.entries()[n].0, b.entries()[n].1)),
    {
        let off = n % (a.block as nat);
        assert(a.pools@[index as int].wf());
        let pa = a.pools@[index as int];
        let pb = b.pools@[index as int];
        Pool::lemma_same_shape(pa, pb);
        assert(pb.spec_capacity() == pa.spec_capacity());
        Self::lemma_pool_changed(a, b, index, n);
        assert(b.entries() =~= a.entries().insert(n, (a.entries()[n].0, b.entries()[n].1)));
        assert(b.entries().dom() =~= a.entries().dom());
        assert forall|m: nat| #[trigger] b.has(m) implies Self::key(b.at(m).0) == m && m
            <= E::Id::spec_mask() by {
            assert(a.has(m));
        }
    }

    /// The pairs of pool `p`, in dense order.
    spec fn pool_seq(&self, p: int) -> Seq<(E, T)> {
        self.pools@[p].values@.map_values(|x: (E::Id, (E, T))| x.1)
    }

    /// The pairs of the first `k` pools, pool by pool.
    spec fn seq_upto(&self, k: nat) -> Seq<(E, T)>
        decreases k,
    {
        if k == 0 {
            Seq::empty()
        } else {
            self.seq_upto((k - 1) as nat) + self.pool_seq(k - 1)
        }
    }

    /// The pairs of the first `k` pools are exactly the stored pairs of those
    /// pools, each once.
    proof fn lemma_seq_upto(&self, k: nat)
        requires
            self.wf(),
            k <= self.pools@.len(),
        ensures
            forall|i: int|
                0 <= i < self.seq_upto(k).len() ==> {
                    let n = #[trigger] Self::key(self.seq_upto(k)[i].0);
                    &&& self.has(n)
                    &&& self.at(n) == self.seq_upto(k)[i]
                    &&& n / (self.block as nat) < k
                },
            forall|i: int, j: int|
                0 <= i < j < self.seq_upto(k).len() ==> Self::key(#[trigger] self.seq_upto(k)[i].0)
                    != Self::key(#[trigger] self.seq_upto(k)[j].0),
            forall|n: nat|
                #[trigger] self.has(n) && n / (self.block as nat) < k ==> exists|i: int|
                    0 <= i < self.seq_upto(k).len() && Self::key(#[trigger] self.seq_upto(k)[i].0) == n,
        decreases k,
    {
        if k > 0 {
            let b = self.block as nat;
            let p = (k - 1) as nat;
            self.lemma_seq_upto(p);
            let prev = self.seq_upto(p);
            let ps = self.pool_seq(p as int);
            let all = self.seq_upto(k);
            let pool = self.pools@[p as int];
            assert(pool.wf());
            assert(all == prev + ps);
            assert forall|d: int| 0 <= d < ps.len() implies {
                let n = Self::key(#[trigger] ps[d].0);
                &&& self.has(n)
                &&& self.at(n) == ps[d]
                &&& n / b == p
                &&& n % b == pool.values@[d].0.spec_index()
            } by {
                let off = pool.values@[d].0.spec_index();
                assert(pool.occupied(off));
                let n = p * b + off;
                vstd::arithmetic::div_mod::lemma_fundamental_div_mod_converse(n as int, b as int, p as int, off as int);
                assert(self.has(n));
                assert(self.at(n) == pool.values@[d].1);
            }
            assert forall|i: int|
                0 <= i < all.len() implies {
                    let n = #[trigger] Self::key(all[i].0);
                    &&& self.has(n)
                    &&& self.at(n) == all[i]
                    &&& n / b < k
                } by {
                if i >= prev.len() {
                    assert(all[i] == ps[i - prev.len()]);
                } else {
                    assert(all[i] == prev[i]);
                }
            }
            assert forall|i: int, j: int| 0 <= i < j < all.len() implies Self::key(#[trigger] all[i].0)
                != Self::key(#[trigger] all[j].0) by {
                if j < prev.len() {
                    assert(all[i] == prev[i] && all[j] == prev[j]);
                } else if i < prev.len() {
                    assert(all[i] == prev[i]);
                    assert(all[j] == ps[j - prev.len()]);
                } else {
                    let di = i - prev.len();
                    let dj = j - prev.len();
                    assert(all[i] == ps[di]);
                    assert(all[j] == ps[dj]);
                    if Self::key(ps[di].0) == Self::key(ps[dj].0) {
                        let oi = pool.values@[di].0.spec_index();
                        let oj = pool.values@[dj].0.spec_index();
                        assert(pool.dense_of(oi) == di);
                        assert(pool.dense_of(oj) == dj);
                    }
                }
            }
            assert forall|n: nat| #[trigger] self.has(n) && n / b < k implies exists|i: int|
                0 <= i < all.len() && Self::key(#[trigger] all[i].0) == n by {
                if n / b < p {
                    let i = choose|i: int| 0 <= i < prev.len() && Self::key(#[trigger] prev[i].0) == n;
                    assert(all[i] == prev[i]);
                } else {
                    let off = n % b;
                    assert(pool.occupied(off));
                    let d = pool.dense_of(off) as int;
                    assert(pool.values@[d].0.spec_index() == off);
                    assert(ps[d] == pool.values@[d].1);
                    assert(self.at(n) == ps[d]);
                    assert(all[prev.len() + d] == ps[d]);
                }
            }
        }
    }

    /// The stored pairs in iteration order: pool by pool, each pool in dense order.
    pub closed spec fn listing(&self) -> Seq<(E, T)> {
        self.seq_upto(self.pools@.len())
    }

    /// The iteration order lists every stored pair exactly once.
    pub proof fn lemma_listing(&self)
        requires
            self.wf(),
        ensures
            self.listing().len() == self@.len(),
            forall|i: int|
                0 <= i < self.listing().len() ==> #[trigger] self@.contains_key(
                    Self::key(self.listing()[i].0),
                ) && self@[Self::key(self.listing()[i].0)] == self.listing()[i],
            forall|i: int, j: int|
                0 <= i < j < self.listing().len() ==> Self::key(#[trigger] self.listing()[i].0)
                    != Self::key(#[trigger] self.listing()[j].0),
            forall|n: nat| #[trigger]
                self@.contains_key(n) ==> exists|i: int|
                    0 <= i < self.listing().len() && Self::key(#[trigger] self.listing()[i].0) == n,
    {
        let all = self.listing();
        let k = self.pools@.len();
        self.lemma_seq_upto(k);
        assert forall|i: int|
            0 <= i < all.len() implies #[trigger] self@.contains_key(Self::key(all[i].0))
                && self@[Self::key(all[i].0)] == all[i] by {
            assert(self.has(Self::key(all[i].0)));
        }
        assert forall|n: nat| #[trigger] self@.contains_key(n) implies exists|i: int|
            0 <= i < all.len() && Self::key(#[trigger] all[i].0) == n by {
            assert(self.has(n));
            vstd::arithmetic::div_mod::lemma_fundamental_div_mod(n as int, self.block as int);
        }
        let keys = all.map_values(|x: (E, T)| Self::key(x.0));
        assert forall|n: nat| #[trigger] self@.dom().contains(n) implies keys.contains(n) by {
            let i = choose|i: int| 0 <= i < all.len() && Self::key(#[trigger] all[i].0) == n;
            assert(keys[i] == n);
        }
        lemma_distinct_keys_len(keys, self@.dom());
    }

    /// `b` is `a` with only the value of dense pair `d` of pool `p` replaced.
    spec fn dense_replaced(a: Self, b: Self, p: nat, d: nat) -> bool {
        &&& b.block == a.block
        &&& b.len == a.len
        &&& b.pools@.len() == a.pools@.len()
        &&& p < a.pools@.len()
        &&& forall|q: int| 0 <= q < a.pools@.len() && q != p ==> b.pools@[q] == a.pools@[q]
        &&& b.pools@[p as int].indices@ == a.pools@[p as int].indices@
        &&& d < a.pools@[p as int].values@.len()
        &&& b.pools@[p as int].values@ == a.pools@[p as int].values@.update(
            d as int,
            (
                a.pools@[p as int].values@[d as int].0,
                (a.pools@[p as int].values@[d as int].1.0, b.pools@[p as int].values@[d as int].1.1),
            ),
        )
    }

    /// The pairs of the first `k` pools after replacing dense pair `d` of pool `p`.
    proof fn lemma_seq_upto_replaced(a: Self, b: Self, p: nat, d: nat, k: nat)
        requires
            Self::dense_replaced(a, b, p, d),
            k <= a.pools@.len(),
        ensures
            k <= p ==> b.seq_upto(k) == a.seq_upto(k),
            k > p ==> a.seq_upto(p).len() + d < a.seq_upto(k).len(),
            k > p ==> b.seq_upto(k) == a.seq_upto(k).update(
                a.seq_upto(p).len() + d as int,
                b.pools@[p as int].values@[d as int].1,
            ),
        decreases k,
    {
        if k > 0 {
            let q = (k - 1) as nat;
            Self::lemma_seq_upto_replaced(a, b, p, d, q);
            if q != p {
                assert(b.pool_seq(q as int) == a.pool_seq(q as int));
            } else {
                assert(b.pool_seq(q as int) =~= a.pool_seq(q as int).update(
                    d as int,
                    b.pools@[p as int].values@[d as int].1,
                ));
            }
            if k > p {
                assert(b.seq_upto(k) =~= a.seq_upto(k).update(
                    a.seq_upto(p).len() + d as int,
                    b.pools@[p as int].values@[d as int].1,
                ));
            }
        }
    }

    /// Replacing one stored value keeps the map well-formed and changes only that
    /// value, in the map and in the iteration order.
    proof fn lemma_dense_replaced(a: Self, b: Self, p: nat, d: nat)
        requires
            a.wf(),
            Self::dense_replaced(a, b, p, d),
        ensures
            b.wf(),
            b.entries() == a.entries().insert(
                Self::key(a.pools@[p as int].values@[d as int].1.0),
                b.pools@[p as int].values@[d as int].1,
            ),
            b.listing() == a.listing().update(
                a.seq_upto(p).len() + d as int,
                b.pools@[p as int].values@[d as int].1,
            ),
            a.seq_upto(p).len() + d < a.listing().len(),
            a.listing()[a.seq_upto(p).len() + d as int] == a.pools@[p as int].values@[d as int].1,
    {
        let pa = a.pools@[p as int];
        let pb = b.pools@[p as int];
        let bs = a.block as nat;
        assert(pa.wf());
        assert(Pool::same_shape(pa, pb));
        Pool::lemma_same_shape(pa, pb);
        let off = pa.values@[d as int].0.spec_index();
        assert(pa.occupied(off));
        let n = p * bs + off;
        vstd::arithmetic::div_mod::lemma_fundamental_div_mod_converse(n as int, bs as int, p as int, off as int);
        assert(a.has(n));
        assert(a.at(n) == pa.values@[d as int].1);
        let new_pair = pb.values@[d as int].1;
        assert forall|k: nat| k != off implies (#[trigger] pb.view().contains_key(k) == pa.view().contains_key(k))
            && (pa.view().contains_key(k) ==> pb.view()[k] == pa.view()[k]) by {
            if pa.occupied(k) {
                assert(pa.dense_of(k) != d);
            }
        }
        assert(pb.view() =~= pa.view().insert(off, new_pair));
        assert(Self::replaced_at(a, b, p, n % bs));
        Self::lemma_replaced_at(a, b, p, n);
        assert(b.at(n) == new_pair);
        Self::lemma_seq_upto_replaced(a, b, p, d, a.pools@.len());
        a.lemma_seq_upto(p);
        a.lemma_seq_upto((p + 1) as nat);
        assert(a.seq_upto((p + 1) as nat) == a.seq_upto(p) + a.pool_seq(p as int));
        Self::lemma_seq_upto_prefix(a, (p + 1) as nat, a.pools@.len());
        assert(a.seq_upto((p + 1) as nat)[a.seq_upto(p).len() + d as int] == pa.values@[d as int].1);
    }

    /// The pairs of the first `j` pools begin the pairs of the first `k` pools.
    proof fn lemma_seq_upto_prefix(a: Self, j: nat, k: nat)
        requires
            j <= k,
        ensures
            a.seq_upto(j).len() <= a.seq_upto(k).len(),
            forall|i: int| 0 <= i < a.seq_upto(j).len() ==> #[trigger] a.seq_upto(k)[i] == a.seq_upto(j)[i],
        decreases k,
    {
        if j < k {
            Self::lemma_seq_upto_prefix(a, j, (k - 1) as nat);
        }
    }

    /// A map missing some valid identifier holds fewer pairs than there are identifiers.
    proof fn lemma_len_bound(&self, n: nat)
        requires
            self.wf(),
            n <= E::Id::spec_mask(),
            !self.entries().contains_key(n),
        ensures
            self.entries().len() < E::Id::spec_mask() + 1,
    {
        let all = Set::<nat>::range(0, E::Id::spec_mask() + 1);
        <nat as vstd::set_lib::FiniteRange>::range_properties(0, E::Id::spec_mask() + 1);
        assert(self.entries().dom().subset_of(all.remove(n)));
        vstd::set_lib::lemma_len_subset(self.entries().dom(), all.remove(n));
    }

    /// Splits an entity's identifier into a pool number and an offset in the pool.
    fn locate(&self, entity: &E) -> (r: (usize, E::Id))
        requires
            self.wf(),
        ensures
            Self::key(*entity) <= E::Id::spec_mask(),
            r.0 == Self::key(*entity) / (self.block as nat),
            r.1.spec_index() == Self::key(*entity) % (self.block as nat),
            r.1.spec_index() < self.block,
    {
        let id = entity.id().into_index();
        proof {
            E::Id::lemma_constants();
        }
        (id / self.block, E::Id::from_index(id % self.block))
    }

    /// After `insert`, the entity's value is the inserted one, every other
    /// identifier keeps what it held, and the count grows by one exactly when
    /// the identifier held nothing.
    pub proof fn law_insert_then_get(a: Self, b: Self, entity: E, value: T, other: nat)
        requires
            a.wf(),
            b@ == a@.insert(Self::key(entity), (entity, value)),
        ensures
            b@.contains_key(Self::key(entity)),
            b@[Self::key(entity)] == (entity, value),
            other != Self::key(entity) ==> b@.contains_key(other) == a@.contains_key(other),
            other != Self::key(entity) && a@.contains_key(other) ==> b@[other] == a@[other],
            b@.len() == a@.len() + (if a@.contains_key(Self::key(entity)) {
                0int
            } else {
                1int
            }),
    {
        a.lemma_keys();
        if a@.contains_key(Self::key(entity)) {
            assert(a@.dom().insert(Self::key(entity)) =~= a@.dom());
        }
    }

    /// Removing an entity just inserted for an identifier that held nothing
    /// gives back the map as it was.
    pub proof fn law_insert_then_remove(a: Self, b: Self, c: Self, entity: E, value: T)
        requires
            !a@.contains_key(Self::key(entity)),
            b@ == a@.insert(Self::key(entity), (entity, value)),
            c@ == b@.remove(Self::key(entity)),
        ensures
            c@ == a@,
    {
        assert(c@ =~= a@);
    }

    /// Creates an empty map.
    pub fn new() -> (r: Self)
        requires
            E::Id::spec_mask() < usize::MAX,
        ensures
            r.wf(),
            r@ == Map::<nat, (E, T)>::empty(),
    {
        let size = core::mem::size_of::<(E, T)>();
        let block = block_size(if size == 0 { 1 } else { size });
        proof {
            reveal(EntityMap::pair_size);
        }
        let r = EntityMap { pools: Vec::new(), len: 0, block };
        assert(r.entries() =~= Map::<nat, (E, T)>::empty());
        r
    }

    /// The number of stored entities.
    pub fn len(&self) -> (r: usize)
        requires
            self.wf(),
        ensures
            r == self@.len(),
    {
        self.len
    }

    /// Whether the map is empty.
    pub fn is_empty(&self) -> (r: bool)
        requires
            self.wf(),
        ensures
            r == (self@.len() == 0),
    {
        self.len() == 0
    }

    /// Whether a pair is stored for the entity's identifier.
    pub fn contains(&self, entity: E) -> (r: bool)
        requires
            self.wf(),
        ensures
            r == self@.contains_key(Self::key(entity)),
    {
        let (index, offset) = self.locate(&entity);
        if index < self.pools.len() {
            let pool = &self.pools[index];
            pool.contains_unchecked(offset)
        } else {
            false
        }
    }

    /// The value stored for the entity's identifier, if any.
    pub fn get(&self, entity: E) -> (r: Option<&T>)
        requires
            self.wf(),
        ensures
            r == (if self@.contains_key(Self::key(entity)) {
                Some(&self@[Self::key(entity)].1)
            } else {
                None
            }),
    {
        if self.contains(entity) {
            Some(self.get_unchecked(entity))
        } else {
            None
        }
    }

    /// The value stored for the entity's identifier, which must hold one.
    pub fn get_unchecked(&self, entity: E) -> (r: &T)
        requires
            self.wf(),
            self@.contains_key(Self::key(entity)),
        ensures
            *r == self@[Self::key(entity)].1,
    {
        let (index, offset) = self.locate(&entity);
        let pool = &self.pools[index];
        &pool.get_unchecked(offset).1
    }

    /// Stores `value` for the entity's identifier, returning the value it
    /// replaces; the pair stored for the identifier is replaced as a whole.
    #[verifier::spinoff_prover]
    #[verifier::rlimit(40)]
    pub fn insert(&mut self, entity: E, value: T) -> (r: Option<T>)
        requires
            old(self).wf(),
        ensures
            final(self).wf(),
            final(self)@ == old(self)@.insert(Self::key(entity), (entity, value)),
            r == (if old(self)@.contains_key(Self::key(entity)) {
                Some(old(self)@[Self::key(entity)].1)
            } else {
                None
            }),
    {
        let ghost old_self = *self;
        let ghost n = Self::key(entity);
        let (index, offset) = self.locate(&entity);
        let ghost b = self.block as nat;
        while self.pools.len() <= index
            invariant
                self.wf(),
                self.entries() == old_self.entries(),
                self.block == old_self.block,
                b == self.block,
            decreases index + 1 - self.pools.len(),
        {
            let ghost before = *self;
            proof {
                E::Id::lemma_constants();
            }
            let pool = Pool::new(self.block);
            self.pools.push(pool);
            proof {
                assert forall|m: nat| self.has(m) <==> before.has(m) by {
                    if m / b < before.pools@.len() {
                        assert(self.pools@[(m / b) as int] == before.pools@[(m / b) as int]);
                    }
                }
                assert forall|m: nat| #[trigger] self.has(m) implies self.at(m) == before.at(m) by {
                    assert(self.pools@[(m / b) as int] == before.pools@[(m / b) as int]);
                }
                assert(self.entries() =~= before.entries());
                assert(self.entries().dom().finite());
                assert forall|m: nat| #[trigger] self.has(m) implies Self::key(self.at(m).0) == m
                    && m <= E::Id::spec_mask() by {
                    assert(before.has(m));
                }
            }
        }
        let ghost mid = *self;
        proof {
            assert(self.pools@[index as int].wf());
            let old_pool = self.pools@[index as int];
            if !old_pool.view().contains_key(offset.spec_index()) {
                old_pool.lemma_not_full(offset.spec_index());
            }
        }
        let ret = self.pools[index].insert(offset, (entity, value));
        let ghost inserted = self.pools@[index as int];
        assert(inserted.wf() && inserted.spec_capacity() == self.block);
        let r = match ret {
            Some(old_pair) => Some(old_pair.1),
            None => {
                proof {
                    mid.lemma_len_bound(n);
                }
                self.len = self.len + 1;
                None
            },
        };
        proof {
            let pair = (entity, value);
            assert forall|m: nat| #[trigger] self.has(m) == (mid.has(m) || m == n) by {
                if m / b == index as nat && m % b == offset.spec_index() {
                    lemma_slot(m, n, b);
                }
                if m / b != index as nat && m / b < self.pools@.len() {
                    assert(self.pools@[(m / b) as int] == mid.pools@[(m / b) as int]);
                }
            }
            assert forall|m: nat| #[trigger] self.has(m) implies self.at(m) == (if m == n {
                pair
            } else {
                mid.at(m)
            }) by {
                if m / b == index as nat && m % b == offset.spec_index() {
                    lemma_slot(m, n, b);
                }
                if m / b != index as nat {
                    assert(self.pools@[(m / b) as int] == mid.pools@[(m / b) as int]);
                }
            }
            assert(self.entries() =~= mid.entries().insert(n, pair));
            assert forall|m: nat| #[trigger] self.has(m) implies Self::key(self.at(m).0) == m
                && m <= E::Id::spec_mask() by {
                if m != n {
                    assert(mid.has(m));
                }
            }
            assert(self.entries().dom() =~= mid.entries().dom().insert(n));
            assert(self.pools@ == mid.pools@.update(index as int, inserted));
            assert forall|p: int| 0 <= p < self.pools@.len() implies #[trigger] self.pools@[p].wf()
                && self.pools@[p].spec_capacity() == self.block by {
                if p != index as int {
                    assert(mid.pools@[p].wf());
                }
            }
        }
        r
    }

    /// Removes the pair stored for the entity's identifier, returning its value.
    pub fn remove(&mut self, entity: E) -> (r: Option<T>)
        requires
            old(self).wf(),
        ensures
            final(self).wf(),
            final(self)@ == old(self)@.remove(Self::key(entity)),
            r == (if old(self)@.contains_key(Self::key(entity)) {
                Some(old(self)@[Self::key(entity)].1)
            } else {
                None
            }),
    {
        let ghost mid = *self;
        let ghost n = Self::key(entity);
        let (index, offset) = self.locate(&entity);
        let ghost b = self.block as nat;
        if index >= self.pools.len() {
            proof {
                assert(!self.has(n));
                assert(self@.remove(n) =~= self@);
            }
            return None;
        }
        proof {
            assert(self.pools@[index as int].wf());
        }
        let ret = self.pools[index].remove(offset);
        let r = match ret {
            Some(pair) => {
                proof {
                    assert(mid.has(n));
                    assert(mid.entries().dom().contains(n));
                }
                self.len = self.len - 1;
                Some(pair.1)
            },
            None => None,
        };
        proof {
            Self::lemma_pool_changed(mid, *self, index as nat, n);
            assert(self.entries() =~= mid.entries().remove(n));
            assert(self.entries().dom() =~= mid.entries().dom().remove(n));
            assert forall|m: nat| #[trigger] self.has(m) implies Self::key(self.at(m).0) == m
                && m <= E::Id::spec_mask() by {
                assert(mid.has(m));
            }
        }
        r
    }

    /// Mutable access to the value stored for the entity's identifier, which must hold one.
    pub fn get_unchecked_mut(&mut self, entity: E) -> (r: &mut T)
        requires
            old(self).wf(),
            old(self)@.contains_key(Self::key(entity)),
        ensures
            *r == old(self)@[Self::key(entity)].1,
            final(self).wf(),
            final(self)@ == old(self)@.insert(
                Self::key(entity),
                (old(self)@[Self::key(entity)].0, *final(r)),
            ),
    {
        let ghost n = Self::key(entity);
        let (index, offset) = self.locate(&entity);
        proof {
            assert(self.pools@[index as int].wf());
            assert forall|b: Self|
                #![trigger b.wf()]
                #![trigger b.view()]
                Self::replaced_at(*old(self), b, index as nat, offset.spec_index()) implies b.wf()
                && b.view() == old(self).entries().insert(
                n,
                (old(self).entries()[n].0, b.entries()[n].1),
            ) by {
                Self::lemma_replaced_at(*old(self), b, index as nat, n);
                assert(b.view() == b.entries());
            }
        }
        let pool = &mut self.pools[index];
        let pair = pool.get_unchecked_mut(offset);
        &mut pair.1
    }

    /// Mutable access to the value stored for the entity's identifier, if any.
    pub fn get_mut(&mut self, entity: E) -> (r: Option<&mut T>)
        requires
            old(self).wf(),
        ensures
            final(self).wf(),
            old(self)@.contains_key(Self::key(entity)) ==> r is Some && *r->0 == old(self)@[Self::key(
                entity,
            )].1 && final(self)@ == old(self)@.insert(
                Self::key(entity),
                (old(self)@[Self::key(entity)].0, *final(r->0)),
            ),
            !old(self)@.contains_key(Self::key(entity)) ==> r is None && *final(self) == *old(self),
    {
        if self.contains(entity) {
            Some(self.get_unchecked_mut(entity))
        } else {
            None
        }
    }

    /// All `(entity, value)` pairs, in iteration order (see `listing`).
    pub fn iter(&self) -> (r: Vec<(E, &T)>)
        requires
            self.wf(),
        ensures
            r@.len() == self.listing().len(),
            forall|i: int| 0 <= i < r@.len() ==> (r@[i].0, *r@[i].1) == #[trigger] self.listing()[i],
    {
        let mut r: Vec<(E, &T)> = Vec::new();
        let mut p: usize = 0;
        while p < self.pools.len()
            invariant
                self.wf(),
                p <= self.pools@.len(),
                r@.len() == self.seq_upto(p as nat).len(),
                forall|i: int|
                    0 <= i < r@.len() ==> (r@[i].0, *r@[i].1) == #[trigger] self.seq_upto(
                        p as nat,
                    )[i],
            decreases self.pools@.len() - p,
        {
            let pool = &self.pools[p];
            let values = pool.iter();
            let mut d: usize = 0;
            while d < values.len()
                invariant
                    self.wf(),
                    p < self.pools@.len(),
                    *pool == self.pools@[p as int],
                    values@.len() == pool.values@.len(),
                    forall|e: int| 0 <= e < values@.len() ==> *values@[e] == pool.values@[e].1,
                    d <= values@.len(),
                    r@.len() == self.seq_upto(p as nat).len() + d,
                    forall|i: int|
                        0 <= i < self.seq_upto(p as nat).len() ==> (r@[i].0, *r@[i].1)
                            == #[trigger] self.seq_upto(p as nat)[i],
                    forall|e: int|
                        0 <= e < d ==> (r@[self.seq_upto(p as nat).len() + e].0, *r@[self.seq_upto(
                            p as nat,
                        ).len() + e].1) == #[trigger] self.pool_seq(p as int)[e],
                decreases values@.len() - d,
            {
                let pair: &(E, T) = values[d];
                r.push((pair.0, &pair.1));
                d = d + 1;
            }
            proof {
                let next = self.seq_upto((p + 1) as nat);
                assert(next == self.seq_upto(p as nat) + self.pool_seq(p as int));
                assert forall|i: int| 0 <= i < r@.len() implies (r@[i].0, *r@[i].1)
                    == #[trigger] next[i] by {
                    if i >= self.seq_upto(p as nat).len() {
                        let e = i - self.seq_upto(p as nat).len();
                        assert(self.pool_seq(p as int)[e] == next[i]);
                    }
                }
            }
            p = p + 1;
        }
        r
    }

    /// All entities, in iteration order.
    pub fn entities(&self) -> (r: Vec<E>)
        requires
            self.wf(),
        ensures
            r@ == self.listing().map_values(|x: (E, T)| x.0),
    {
        let pairs = self.iter();
        let mut r: Vec<E> = Vec::new();
        let mut i: usize = 0;
        while i < pairs.len()
            invariant
                i <= pairs@.len(),
                r@.len() == i,
                pairs@.len() == self.listing().len(),
                forall|j: int| 0 <= j < pairs@.len() ==> (pairs@[j].0, *pairs@[j].1) == #[trigger] self.listing()[j],
                forall|j: int| 0 <= j < i ==> r@[j] == #[trigger] self.listing()[j].0,
            decreases pairs@.len() - i,
        {
            r.push(pairs[i].0);
            i = i + 1;
        }
        assert(r@ =~= self.listing().map_values(|x: (E, T)| x.0));
        r
    }

    /// All values, in iteration order.
    pub fn values(&self) -> (r: Vec<&T>)
        requires
            self.wf(),
        ensures
            r@.len() == self.listing().len(),
            forall|i: int| 0 <= i < r@.len() ==> *r@[i] == #[trigger] self.listing()[i].1,
    {
        let pairs = self.iter();
        let mut r: Vec<&T> = Vec::new();
        let mut i: usize = 0;
        while i < pairs.len()
            invariant
                i <= pairs@.len(),
                r@.len() == i,
                pairs@.len() == self.listing().len(),
                forall|j: int| 0 <= j < pairs@.len() ==> (pairs@[j].0, *pairs@[j].1) == #[trigger] self.listing()[j],
                forall|j: int| 0 <= j < i ==> *r@[j] == #[trigger] self.listing()[j].1,
            decreases pairs@.len() - i,
        {
            r.push(pairs[i].1);
            i = i + 1;
        }
        r
    }

    /// Mutable iteration over all `(entity, value)` pairs, in iteration order.
    pub fn iter_mut(&mut self) -> (r: IterMut<'_, E, T>)
        requires
            old(self).wf(),
        ensures
            r.valid(),
            r.target() == *old(self),
            r.position() == 0,
            *final(self) == *final(r.map_ref()),
    {
        IterMut { map: self, pool: 0, dense: 0 }
    }

    /// Mutable iteration over all values, in iteration order.
    pub fn values_mut(&mut self) -> (r: ValuesMut<'_, E, T>)
        requires
            old(self).wf(),
        ensures
            r.valid(),
            r.target() == *old(self),
            r.position() == 0,
            *final(self) == *final(r.map_ref()),
    {
        ValuesMut { inner: self.iter_mut() }
    }
}

/// The first `m` steps of a pass of `IterMut::next` (see `law_iter_mut_pass`).
proof fn lemma_iter_mut_steps<E: Entity, T>(ms: Seq<Map<nat, (E, T)>>, l: Seq<(E, T)>, ws: Seq<T>, m: nat)
    requires
        ms.len() == l.len() + 1,
        ws.len() == l.len(),
        m <= l.len(),
        forall|i: int, j: int|
            0 <= i < j < l.len() ==> EntityMap::<E, T>::key(#[trigger] l[i].0) != EntityMap::<E, T>::key(
                #[trigger] l[j].0,
            ),
        forall|i: int| 0 <= i < l.len() ==> ms[0].contains_key(EntityMap::<E, T>::key(#[trigger] l[i].0)),
        forall|k: int|
            0 <= k < l.len() ==> #[trigger] ms[k + 1] == ms[k].insert(
                EntityMap::<E, T>::key(l[k].0),
                (l[k].0, ws[k]),
            ),
    ensures
        ms[m as int].dom() == ms[0].dom(),
        forall|k: int|
            0 <= k < m ==> #[trigger] ms[m as int][EntityMap::<E, T>::key(l[k].0)] == (l[k].0, ws[k]),
        forall|n: nat|
            ms[0].contains_key(n) && (forall|k: int| 0 <= k < m ==> EntityMap::<E, T>::key(#[trigger] l[k].0) != n)
                ==> #[trigger] ms[m as int][n] == ms[0][n],
    decreases m,
{
    if m > 0 {
        let p = (m - 1) as nat;
        lemma_iter_mut_steps(ms, l, ws, p);
        assert(ms[p as int + 1] == ms[p as int].insert(EntityMap::<E, T>::key(l[p as int].0), (l[p as int].0, ws[p as int])));
        assert(ms[m as int] == ms[p as int].insert(EntityMap::<E, T>::key(l[p as int].0), (l[p as int].0, ws[p as int])));
        assert(ms[p as int].contains_key(EntityMap::<E, T>::key(l[p as int].0)));
        assert(ms[m as int].dom() =~= ms[0].dom());
        assert forall|k: int| 0 <= k < m implies #[trigger] ms[m as int][EntityMap::<E, T>::key(l[k].0)] == (
            l[k].0,
            ws[k],
        ) by {
            if k < p {
                assert(EntityMap::<E, T>::key(l[k].0) != EntityMap::<E, T>::key(l[p as int].0));
            }
        }
    }
}

/// A whole pass of `IterMut::next` over a map listed as `l` (its
/// `listing()`): if step `k` writes `ws[k]` as the value of the `k`-th listed
/// entity (as `next` ensures), the map ends with the same identifiers, the
/// same number of pairs, and each listed entity holding its written value.
pub proof fn law_iter_mut_pass<E: Entity, T>(ms: Seq<Map<nat, (E, T)>>, l: Seq<(E, T)>, ws: Seq<T>)
    requires
        ms.len() == l.len() + 1,
        ws.len() == l.len(),
        ms[0].dom().finite(),
        forall|i: int, j: int|
            0 <= i < j < l.len() ==> EntityMap::<E, T>::key(#[trigger] l[i].0) != EntityMap::<E, T>::key(
                #[trigger] l[j].0,
            ),
        forall|i: int| 0 <= i < l.len() ==> ms[0].contains_key(EntityMap::<E, T>::key(#[trigger] l[i].0)),
        forall|k: int|
            0 <= k < l.len() ==> #[trigger] ms[k + 1] == ms[k].insert(
                EntityMap::<E, T>::key(l[k].0),
                (l[k].0, ws[k]),
            ),
    ensures
        ms[l.len() as int].dom() == ms[0].dom(),
        ms[l.len() as int].len() == ms[0].len(),
        forall|k: int|
            0 <= k < l.len() ==> #[trigger] ms[l.len() as int][EntityMap::<E, T>::key(l[k].0)] == (
                l[k].0,
                ws[k],
            ),
{
    lemma_iter_mut_steps(ms, l, ws, l.len());
}

/// Mutable iteration over the pairs of an `EntityMap`, in iteration order (see
/// `EntityMap::listing`). Each call of `next` hands out one value.
pub struct IterMut<'a, E: Entity, T> {
    map: &'a mut EntityMap<E, T>,
    pool: usize,
    dense: usize,
}

impl<'a, E: Entity, T> IterMut<'a, E, T> {
    /// The map being iterated, as it stands now.
    pub closed spec fn target(&self) -> EntityMap<E, T> {
        *self.map
    }

    /// The borrow of the map being iterated.
    pub closed spec fn map_ref(&self) -> &'a mut EntityMap<E, T> {
        self.map
    }

    /// Once the cursor is no longer used, the map ends as the cursor's
    /// target, which is well formed.
    pub proof fn lemma_resolved(&self)
        requires
            self.valid(),
            has_resolved(*self),
        ensures
            *final(self.map_ref()) == self.target(),
            self.target().wf(),
    {
    }

    /// The position in the iteration order of the next pair to hand out.
    pub closed spec fn position(&self) -> nat {
        self.map.seq_upto(self.pool as nat).len() + self.dense as nat
    }

    /// The cursor's internal invariant.
    pub closed spec fn valid(&self) -> bool {
        &&& self.map.wf()
        &&& self.pool <= self.map.pools@.len()
        &&& self.pool < self.map.pools@.len() ==> self.dense <= self.map.pools@[self.pool as int].values@.len()
        &&& self.pool == self.map.pools@.len() ==> self.dense == 0
    }

    /// Hands out the next `(entity, value)` pair for mutation, or `None` at the end.
    #[verifier::spinoff_prover]
    #[verifier::rlimit(60)]
    pub fn next(&mut self) -> (r: Option<(E, &mut T)>)
        requires
            old(self).valid(),
        ensures
            final(self).valid(),
            *final(final(self).map_ref()) == *final(old(self).map_ref()),
            old(self).position() < old(self).target().listing().len() ==> r is Some,
            old(self).position() < old(self).target().listing().len() ==> ((r->0).0, *(r->0).1)
                == old(self).target().listing()[old(self).position() as int],
            old(self).position() < old(self).target().listing().len() ==> final(self).position()
                == old(self).position() + 1,
            old(self).position() < old(self).target().listing().len() ==> final(self).target()@
                == old(self).target()@.insert(
                EntityMap::<E, T>::key((r->0).0),
                ((r->0).0, *final((r->0).1)),
            ),
            old(self).position() < old(self).target().listing().len() ==> final(self).target().listing()
                == old(self).target().listing().update(
                old(self).position() as int,
                ((r->0).0, *final((r->0).1)),
            ),
            old(self).position() >= old(self).target().listing().len() ==> r is None
                && final(self).target() == old(self).target(),
    {
        loop
            invariant
                self.valid(),
                self.target() == old(self).target(),
                self.position() == old(self).position(),
                *final(self.map) == *final(old(self).map),
            decreases self.map.pools@.len() - self.pool, 
        {
            if self.pool >= self.map.pools.len() {
                return None;
            }
            if self.dense < self.map.pools[self.pool].values.len() {
                let p = self.pool;
                let d = self.dense;
                proof {
                    let a = *self.map;
                    assert forall|m: EntityMap<E, T>|
                        #![trigger m.wf()]
                        #![trigger m.view()]
                        #![trigger m.listing()]
                        #![trigger m.seq_upto(p as nat)]
                        EntityMap::dense_replaced(a, m, p as nat, d as nat) implies m.wf()
                        && m.view() == a.view().insert(
                        EntityMap::<E, T>::key(a.pools@[p as int].values@[d as int].1.0),
                        m.pools@[p as int].values@[d as int].1,
                    ) && m.listing() == a.listing().update(
                        a.seq_upto(p as nat).len() + d,
                        m.pools@[p as int].values@[d as int].1,
                    ) && m.seq_upto(p as nat) == a.seq_upto(p as nat) by {
                        EntityMap::lemma_dense_replaced(a, m, p as nat, d as nat);
                        EntityMap::lemma_seq_upto_replaced(a, m, p as nat, d as nat, p as nat);
                    }
                    let pv = a.pools@[p as int].values@;
                    assert(pv =~= pv.update(d as int, (pv[d as int].0, (pv[d as int].1.0, pv[d as int].1.1))));
                    EntityMap::lemma_dense_replaced(a, a, p as nat, d as nat);
                }
                self.dense = self.dense + 1;
                let pair = &mut self.map.pools[p].values[d].1;
                return Some((pair.0, &mut pair.1));
            }
            self.pool = self.pool + 1;
            self.dense = 0;
        }
    }
}

/// Mutable iteration over the values of an `EntityMap`, in iteration order.
pub struct ValuesMut<'a, E: Entity, T> {
    inner: IterMut<'a, E, T>,
}

impl<'a, E: Entity, T> ValuesMut<'a, E, T> {
    /// The map being iterated, as it stands now.
    pub closed spec fn target(&self) -> EntityMap<E, T> {
        self.inner.target()
    }

    /// The borrow of the map being iterated.
    pub closed spec fn map_ref(&self) -> &'a mut EntityMap<E, T> {
        self.inner.map_ref()
    }

    /// Once the cursor is no longer used, the map ends as the cursor's
    /// target, which is well formed.
    pub proof fn lemma_resolved(&self)
        requires
            self.valid(),
            has_resolved(*self),
        ensures
            *final(self.map_ref()) == self.target(),
            self.target().wf(),
    {
    }

    /// The position in the iteration order of the next value to hand out.
    pub closed spec fn position(&self) -> nat {
        self.inner.position()
    }

    /// The cursor's internal invariant.
    pub closed spec fn valid(&self) -> bool {
        self.inner.valid()
    }

    /// Hands out the next value for mutation, or `None` at the end.
    pub fn next(&mut self) -> (r: Option<&mut T>)
        requires
            old(self).valid(),
        ensures
            final(self).valid(),
            *final(final(self).map_ref()) == *final(old(self).map_ref()),
            old(self).position() < old(self).target().listing().len() ==> r is Some,
            old(self).position() < old(self).target().listing().len() ==> *r->0
                == old(self).target().listing()[old(self).position() as int].1,
            old(self).position() < old(self).target().listing().len() ==> final(self).position()
                == old(self).position() + 1,
            old(self).position() < old(self).target().listing().len() ==> final(self).target().listing()
                == old(self).target().listing().update(
                old(self).position() as int,
                (old(self).target().listing()[old(self).position() as int].0, *final(r->0)),
            ),
            old(self).position() >= old(self).target().listing().len() ==> r is None
                && final(self).target() == old(self).target(),
    {
        match self.inner.next() {
            Some(pair) => Some(pair.1),
            None => None,
        }
    }
}


} // verus!
