//! An entity map built from fixed-size pools.
//!
//! Entity identifiers are split into blocks of `BLOCK_SIZE`; each block is a
//! pool holding an array from offset to dense position (with `I::MAX` marking
//! an empty offset) and a dense vector of (offset, value) pairs. The map's
//! operations state what they expect of the entity (present or absent).

use vstd::prelude::*;
use crate::entity::entity::EntityOps;
use crate::utils::Subscript;
use crate::utils::vec_unchecked::swap_remove_unchecked;

verus! {

/// A fixed-size pool of values indexed by offsets below `N`.
pub struct Pool<T, I: Subscript, const N: usize> {
    value_indices: Vec<I>,
    values: Vec<(I, T)>,
}

/// `b` lists the same offsets as `a`, in the same order, possibly with other values.
pub open spec fn same_offsets<I, T>(a: Seq<(I, T)>, b: Seq<(I, T)>) -> bool {
    &&& b.len() == a.len()
    &&& forall|d: int| 0 <= d < a.len() ==> #[trigger] b[d].0 == a[d].0
}

impl<T, I: Subscript, const N: usize> Pool<T, I, N> {
    /// Whether offset `k` holds a value.
    pub closed spec fn occupied(&self, k: nat) -> bool {
        k < self.value_indices@.len() && self.value_indices@[k as int].spec_subscript() != I::spec_max()
    }

    /// Dense position of the value stored at offset `k`.
    pub closed spec fn dense_of(&self, k: nat) -> nat {
        self.value_indices@[k as int].spec_subscript()
    }

    /// The occupied offsets.
    pub closed spec fn keys(&self) -> Set<nat> {
        Set::new(|k: nat| self.occupied(k))
    }

    /// The stored values, by offset.
    pub closed spec fn view(&self) -> Map<nat, T> {
        Map::new(|k: nat| self.occupied(k), |k: nat| self.values@[self.dense_of(k) as int].1)
    }

    /// The dense (offset, value) pairs.
    pub closed spec fn pairs(&self) -> Seq<(I, T)> {
        self.values@
    }

    /// The stored values in dense order.
    pub closed spec fn dense(&self) -> Seq<T> {
        self.values@.map_values(|x: (I, T)| x.1)
    }

    /// The pool's internal invariant.
    pub closed spec fn wf(&self) -> bool {
        &&& I::spec_max() <= usize::MAX
        &&& N <= I::spec_max()
        &&& self.value_indices@.len() == N
        &&& forall|k: nat| #[trigger]
            self.occupied(k) ==> self.dense_of(k) < self.values@.len()
                && self.values@[self.dense_of(k) as int].0.spec_subscript() == k
        &&& forall|d: int|
            0 <= d < self.values@.len() ==> {
                let k = #[trigger] self.values@[d].0.spec_subscript();
                &&& self.occupied(k)
                &&& self.dense_of(k) == d
            }
        &&& self.keys().finite()
        &&& self.keys().len() == self.values@.len()
    }

    /// `b` has the offsets and dense order of `a`, possibly with other values.
    pub closed spec fn same_shape(a: Self, b: Self) -> bool {
        &&& b.value_indices@ == a.value_indices@
        &&& b.values@.len() == a.values@.len()
        &&& forall|d: int| 0 <= d < a.values@.len() ==> #[trigger] b.values@[d].0 == a.values@[d].0
    }

    /// The dense pairs list each stored value once, next to its offset.
    pub proof fn lemma_pairs(&self)
        requires
            self.wf(),
        ensures
            self.pairs().len() == self.view().len(),
            forall|d: int|
                0 <= d < self.pairs().len() ==> #[trigger] self.view().contains_key(
                    self.pairs()[d].0.spec_subscript(),
                ) && self.view()[self.pairs()[d].0.spec_subscript()] == self.pairs()[d].1,
    {
        assert(self.keys() =~= self.view().dom());
    }

    /// A pool with the shape of a well-formed pool is well-formed.
    pub proof fn lemma_same_shape(a: Self, b: Self)
        requires
            a.wf(),
            Self::same_shape(a, b),
        ensures
            b.wf(),
            b.keys() == a.keys(),
    {
        assert(b.keys() =~= a.keys());
        assert forall|k: nat| #[trigger] b.occupied(k) implies b.dense_of(k) < b.values@.len()
            && b.values@[b.dense_of(k) as int].0.spec_subscript() == k by {
            assert(a.occupied(k));
        }
        assert forall|d: int| 0 <= d < b.values@.len() implies {
            let k = #[trigger] b.values@[d].0.spec_subscript();
            &&& b.occupied(k)
            &&& b.dense_of(k) == d
        } by {
            assert(a.values@[d].0 == b.values@[d].0);
        }
    }

    /// Creates an empty pool; every offset starts empty (`I::MAX`).
    pub fn new() -> (r: Self)
        requires
            I::spec_max() <= usize::MAX,
            N <= I::spec_max(),
        ensures
            r.wf(),
            r.view() == Map::<nat, T>::empty(),
    {
        let mut value_indices: Vec<I> = Vec::new();
        let mut i: usize = 0;
        proof {
            I::lemma_range(I::MAX);
        }
        while i < N
            invariant
                i <= N,
                value_indices@.len() == i,
                I::MAX.spec_subscript() == I::spec_max(),
                forall|k: int| 0 <= k < i ==> #[trigger] value_indices@[k].spec_subscript() == I::spec_max(),
            decreases N - i,
        {
            value_indices.push(I::MAX);
            i = i + 1;
        }
        let r = Pool { value_indices, values: Vec::new() };
        assert(r.keys() =~= Set::empty());
        assert(r.view() =~= Map::<nat, T>::empty());
        r
    }

    /// Whether `index`, which must be below `N`, holds a value.
    pub fn contains(&self, index: I) -> (r: bool)
        requires
            self.wf(),
            index.spec_subscript() < N,
        ensures
            r == self.view().contains_key(index.spec_subscript()),
    {
        proof {
            I::lemma_range(I::MAX);
        }
        let value_index = self.value_indices[index.into_subscript()];
        value_index.into_subscript() != I::MAX.into_subscript()
    }

    /// The value at `index`, which must hold one.
    pub fn get(&self, index: I) -> (r: &T)
        requires
            self.wf(),
            self.view().contains_key(index.spec_subscript()),
        ensures
            *r == self.view()[index.spec_subscript()],
    {
        let value_index = self.value_indices[index.into_subscript()];
        let pair = &self.values[value_index.into_subscript()];
        &pair.1
    }

    /// Mutable access to the value at `index`, which must hold one.
    pub fn get_mut(&mut self, index: I) -> (r: &mut T)
        requires
            old(self).wf(),
            old(self).view().contains_key(index.spec_subscript()),
        ensures
            *r == old(self).view()[index.spec_subscript()],
            Self::same_shape(*old(self), *final(self)),
            final(self).wf(),
            final(self).view() == old(self).view().insert(index.spec_subscript(), *final(r)),
    {
        let value_index = self.value_indices[index.into_subscript()];
        let d = value_index.into_subscript();
        proof {
            assert forall|b: Self| Self::same_shape(*old(self), b) implies #[trigger] b.wf() by {
                Self::lemma_same_shape(*old(self), b);
            }
        }
        let pair = &mut self.values[d];
        &mut pair.1
    }

    /// Stores `value` at `index`, which must be below `N` and hold no value.
    pub fn insert(&mut self, index: I, value: T)
        requires
            old(self).wf(),
            index.spec_subscript() < N,
            !old(self).view().contains_key(index.spec_subscript()),
        ensures
            final(self).wf(),
            final(self).view() == old(self).view().insert(index.spec_subscript(), value),
    {
        let ghost old_self = *self;
        let k = index.into_subscript();
        proof {
            let all = Set::<nat>::range(0, N as nat);
            <nat as vstd::set_lib::FiniteRange>::range_properties(0, N as nat);
            assert(self.keys().subset_of(all.remove(k as nat)));
            vstd::set_lib::lemma_len_subset(self.keys(), all.remove(k as nat));
            vstd::arithmetic::div_mod::lemma_small_mod(self.values@.len(), I::spec_max() + 1);
        }
        let value_index = I::from_subscript(self.values.len());
        self.values.push((index, value));
        self.value_indices.set(k, value_index);
        proof {
            let kk = k as nat;
            assert(self.keys() =~= old_self.keys().insert(kk));
            assert forall|j: nat| #[trigger] self.occupied(j) implies self.dense_of(j)
                < self.values@.len() && self.values@[self.dense_of(j) as int].0.spec_subscript()
                == j by {
                if j != kk {
                    assert(old_self.occupied(j));
                }
            }
            assert forall|d: int| 0 <= d < self.values@.len() implies {
                let j = #[trigger] self.values@[d].0.spec_subscript();
                &&& self.occupied(j)
                &&& self.dense_of(j) == d
            } by {
                if d < old_self.values@.len() {
                    let j = old_self.values@[d].0.spec_subscript();
                    assert(old_self.occupied(j));
                    assert(j != kk);
                }
            }
            assert(self.view() =~= old_self.view().insert(kk, value));
        }
    }

    /// Removes and returns the value at `index`, which must hold one.
    pub fn remove(&mut self, index: I) -> (r: T)
        requires
            old(self).wf(),
            old(self).view().contains_key(index.spec_subscript()),
        ensures
            final(self).wf(),
            r == old(self).view()[index.spec_subscript()],
            final(self).view() == old(self).view().remove(index.spec_subscript()),
    {
        let ghost old_self = *self;
        let k = index.into_subscript();
        proof {
            assert(old_self.occupied(k as nat));
            I::lemma_range(I::MAX);
        }
        let last_index = self.values.len() - 1;
        let last_value_index = self.values[last_index].0;
        let target_value_index = self.value_indices[k];
        let (new_last_index, value) = swap_remove_unchecked(
            &mut self.values,
            target_value_index.into_subscript(),
        );
        proof {
            assert(old_self.occupied(last_value_index.spec_subscript()));
            assert(new_last_index.spec_subscript() == k);
            I::lemma_injective(new_last_index, index);
        }
        self.value_indices.set(last_value_index.into_subscript(), target_value_index);
        self.value_indices.set(k, I::MAX);
        proof {
            let kk = k as nat;
            let lk = last_value_index.spec_subscript();
            let target = target_value_index.spec_subscript() as int;
            assert(self.keys() =~= old_self.keys().remove(kk));
            assert forall|j: nat| #[trigger] self.occupied(j) implies self.dense_of(j)
                < self.values@.len() && self.values@[self.dense_of(j) as int].0.spec_subscript()
                == j by {
                assert(old_self.occupied(j));
                if j != lk {
                    let dj = old_self.dense_of(j);
                    assert(old_self.values@[dj as int].0.spec_subscript() == j);
                    assert(dj != target);
                    assert(dj != last_index);
                }
            }
            assert forall|d: int| 0 <= d < self.values@.len() implies {
                let j = #[trigger] self.values@[d].0.spec_subscript();
                &&& self.occupied(j)
                &&& self.dense_of(j) == d
            } by {
                if d != target {
                    let j = old_self.values@[d].0.spec_subscript();
                    assert(old_self.occupied(j));
                    assert(j != kk);
                    assert(j != lk);
                }
            }
            assert(self.view() =~= old_self.view().remove(kk));
        }
        value
    }

    /// The offset of the `d`-th value in dense order.
    pub closed spec fn dense_key(&self, d: int) -> nat {
        self.values@[d].0.spec_subscript()
    }

    /// The dense order lists every stored value exactly once.
    pub proof fn lemma_dense(&self)
        requires
            self.wf(),
        ensures
            self.dense().len() == self.view().len(),
            forall|d: int|
                0 <= d < self.dense().len() ==> #[trigger] self.view().contains_key(self.dense_key(d))
                    && self.view()[self.dense_key(d)] == self.dense()[d] && self.dense_key(d) < N,
            forall|d: int, e: int|
                0 <= d < e < self.dense().len() ==> #[trigger] self.dense_key(d) != #[trigger] self.dense_key(e),
            forall|k: nat| #[trigger]
                self.view().contains_key(k) ==> exists|d: int|
                    0 <= d < self.dense().len() && #[trigger] self.dense_key(d) == k,
    {
        assert forall|d: int| 0 <= d < self.dense().len() implies #[trigger] self.view().contains_key(
            self.dense_key(d),
        ) && self.view()[self.dense_key(d)] == self.dense()[d] && self.dense_key(d) < N by {
            assert(self.occupied(self.values@[d].0.spec_subscript()));
        }
        assert forall|d: int, e: int| 0 <= d < e < self.dense().len() implies #[trigger] self.dense_key(d)
            != #[trigger] self.dense_key(e) by {
            assert(self.occupied(self.values@[d].0.spec_subscript()));
            assert(self.occupied(self.values@[e].0.spec_subscript()));
        }
        assert forall|k: nat| #[trigger] self.view().contains_key(k) implies exists|d: int|
            0 <= d < self.dense().len() && #[trigger] self.dense_key(d) == k by {
            assert(self.occupied(k));
            let d = self.dense_of(k) as int;
            assert(self.dense_key(d) == k);
        }
        assert(self.keys() =~= self.view().dom());
    }

    /// Mutable iteration over the values in dense order. The pool ends with the
    /// pairs the cursor ends with; when their offsets are unchanged (as `next`
    /// keeps them), it has its old shape.
    pub fn iter_mut(&mut self) -> (r: PoolIterMut<'_, T, I>)
        ensures
            r.valid(),
            r.position() == 0,
            r.target() == old(self).pairs(),
            final(self).pairs() == (*final(r.values_ref()))@,
            same_offsets(old(self).pairs(), final(self).pairs()) ==> Self::same_shape(
                *old(self),
                *final(self),
            ),
    {
        PoolIterMut { values: self.values.as_mut_slice(), pos: 0 }
    }

    /// Iteration over the values in dense order.
    pub fn iter(&self) -> (r: PoolIter<'_, T, I>)
        ensures
            r.valid(),
            r.remaining() == self.dense(),
    {
        let r = PoolIter { values: self.values.as_slice(), pos: 0 };
        assert(r.remaining() =~= self.dense());
        r
    }
}

/// Iteration over the values of a `Pool`, in dense order.
pub struct PoolIter<'a, T, I: Subscript> {
    values: &'a [(I, T)],
    pos: usize,
}

impl<'a, T, I: Subscript> PoolIter<'a, T, I> {
    /// The values not yet handed out.
    pub closed spec fn remaining(&self) -> Seq<T> {
        self.values@.subrange(self.pos as int, self.values@.len() as int).map_values(|x: (I, T)| x.1)
    }

    /// The cursor's internal invariant.
    pub closed spec fn valid(&self) -> bool {
        self.pos <= self.values@.len()
    }

    /// An iterator with nothing to hand out.
    pub fn empty() -> (r: Self)
        ensures
            r.valid(),
            r.remaining() == Seq::<T>::empty(),
    {
        let values: &[(I, T)] = &[];
        let r = PoolIter { values, pos: 0 };
        assert(r.remaining() =~= Seq::<T>::empty());
        r
    }

    /// The next value, or `None` at the end.
    pub fn next(&mut self) -> (r: Option<&'a T>)
        requires
            old(self).valid(),
        ensures
            final(self).valid(),
            old(self).remaining().len() == 0 ==> r is None && final(self).remaining() == old(
                self,
            ).remaining(),
            old(self).remaining().len() > 0 ==> r is Some && *r->0 == old(self).remaining()[0]
                && final(self).remaining() == old(self).remaining().drop_first(),
    {
        if self.pos < self.values.len() {
            let p = self.pos;
            self.pos = self.pos + 1;
            proof {
                assert(self.remaining() =~= old(self).remaining().drop_first());
            }
            Some(&self.values[p].1)
        } else {
            None
        }
    }
}

/// Mutable iteration over the values of a `Pool`, in dense order; each call of
/// `next` hands out one value.
pub struct PoolIterMut<'a, T, I: Subscript> {
    values: &'a mut [(I, T)],
    pos: usize,
}

impl<'a, T, I: Subscript> PoolIterMut<'a, T, I> {
    /// The dense (offset, value) pairs, as they stand now.
    pub closed spec fn target(&self) -> Seq<(I, T)> {
        self.values@
    }

    /// The borrow of the pairs being iterated.
    pub closed spec fn values_ref(&self) -> &'a mut [(I, T)] {
        self.values
    }

    /// Once the cursor is no longer used, the pairs end as its target.
    pub proof fn lemma_resolved(&self)
        requires
            has_resolved(*self),
        ensures
            (*final(self.values_ref()))@ == self.target(),
    {
    }

    /// The dense position of the next value to hand out.
    pub closed spec fn position(&self) -> nat {
        self.pos as nat
    }

    /// The cursor's internal invariant.
    pub closed spec fn valid(&self) -> bool {
        self.pos <= self.values@.len()
    }

    /// An iterator with nothing to hand out.
    pub fn empty() -> (r: Self)
        ensures
            r.valid(),
            r.target() == Seq::<(I, T)>::empty(),
    {
        let values: &mut [(I, T)] = &mut [];
        PoolIterMut { values, pos: 0 }
    }

    /// Hands out the next value for mutation, or `None` at the end.
    pub fn next(&mut self) -> (r: Option<&mut T>)
        requires
            old(self).valid(),
        ensures
            final(self).valid(),
            (*final(final(self).values_ref()))@ == (*final(old(self).values_ref()))@,
            same_offsets(old(self).target(), final(self).target()),
            old(self).position() < old(self).target().len() ==> r is Some && *r->0 == old(self).target()[old(
                self,
            ).position() as int].1 && final(self).position() == old(self).position() + 1
                && final(self).target() == old(self).target().update(
                old(self).position() as int,
                (old(self).target()[old(self).position() as int].0, *final(r->0)),
            ),
            old(self).position() >= old(self).target().len() ==> r is None && final(self).target()
                == old(self).target() && final(self).position() == old(self).position(),
    {
        if self.pos < self.values.len() {
            let p = self.pos;
            self.pos = self.pos + 1;
            let pair = &mut self.values[p];
            Some(&mut pair.1)
        } else {
            None
        }
    }
}

/// The number of consecutive identifiers one pool covers.
pub const BLOCK_SIZE: usize = 256;

/// The identifiers of a pool number and offset.
proof fn lemma_block_split(n: nat)
    ensures
        n == (n / 256) * 256 + n % 256,
        n % 256 < 256,
{
}

/// A map from packed entities to values, built from pools of `BLOCK_SIZE`
/// identifiers.
pub struct EntityMap<E: EntityOps, V> {
    pools: Vec<Pool<V, E::Id, BLOCK_SIZE>>,
}

impl<E: EntityOps, V> View for EntityMap<E, V> {
    type V = Map<nat, V>;

    /// The stored values, by entity identifier.
    closed spec fn view(&self) -> Map<nat, V> {
        self.entries()
    }
}

impl<E: EntityOps, V> Default for EntityMap<E, V> {
    fn default() -> (r: Self)
        ensures
            r.wf(),
            r@ == Map::<nat, V>::empty(),
    {
        Self::new()
    }
}

impl<E: EntityOps, V> EntityMap<E, V> {
    /// Whether the identifier type's range suits the map: it fits in `usize`
    /// and covers at least one block.
    pub open spec fn id_fits() -> bool {
        &&& E::Id::spec_max() <= usize::MAX
        &&& BLOCK_SIZE <= E::Id::spec_max()
    }

    /// Whether identifier `n` holds a value.
    spec fn has(&self, n: nat) -> bool {
        &&& n / 256 < self.pools@.len()
        &&& self.pools@[(n / 256) as int].view().contains_key(n % 256)
    }

    /// The value stored at identifier `n`.
    spec fn at(&self, n: nat) -> V {
        self.pools@[(n / 256) as int].view()[n % 256]
    }

    spec fn entries(&self) -> Map<nat, V> {
        Map::new(|n: nat| self.has(n), |n: nat| self.at(n))
    }

    /// The map's internal invariant.
    pub closed spec fn wf(&self) -> bool {
        forall|p: int| 0 <= p < self.pools@.len() ==> #[trigger] self.pools@[p].wf()
    }

    /// The values of pools `p..`, pool by pool, each in dense order.
    pub closed spec fn listing_from(pools: Seq<Pool<V, E::Id, BLOCK_SIZE>>, p: nat) -> Seq<V>
        decreases pools.len() - p,
    {
        if p >= pools.len() {
            Seq::empty()
        } else {
            pools[p as int].dense() + Self::listing_from(pools, p + 1)
        }
    }

    /// The identifiers of pools `p..` in the same order.
    pub closed spec fn keys_from(pools: Seq<Pool<V, E::Id, BLOCK_SIZE>>, p: nat) -> Seq<nat>
        decreases pools.len() - p,
    {
        if p >= pools.len() {
            Seq::empty()
        } else {
            Seq::new(pools[p as int].dense().len(), |d: int| p * 256 + pools[p as int].dense_key(d))
                + Self::keys_from(pools, p + 1)
        }
    }

    /// The stored values in iteration order.
    pub closed spec fn listing(&self) -> Seq<V> {
        Self::listing_from(self.pools@, 0)
    }

    /// The identifiers of the stored values, in iteration order.
    pub closed spec fn listing_keys(&self) -> Seq<nat> {
        Self::keys_from(self.pools@, 0)
    }

    /// The listing of pools `p..` holds each stored value of those pools once,
    /// next to its identifier.
    proof fn lemma_listing_from(&self, p: nat)
        requires
            self.wf(),
            p <= self.pools@.len(),
        ensures
            Self::listing_from(self.pools@, p).len() == Self::keys_from(self.pools@, p).len(),
            forall|i: int|
                0 <= i < Self::keys_from(self.pools@, p).len() ==> {
                    let n = #[trigger] Self::keys_from(self.pools@, p)[i];
                    &&& self.has(n)
                    &&& self.at(n) == Self::listing_from(self.pools@, p)[i]
                    &&& n / 256 >= p
                },
            forall|i: int, j: int|
                0 <= i < j < Self::keys_from(self.pools@, p).len() ==> #[trigger] Self::keys_from(
                    self.pools@,
                    p,
                )[i] != #[trigger] Self::keys_from(self.pools@, p)[j],
            forall|n: nat|
                #[trigger] self.has(n) && n / 256 >= p ==> Self::keys_from(self.pools@, p).contains(n),
        decreases self.pools@.len() - p,
    {
        let ks = Self::keys_from(self.pools@, p);
        let ls = Self::listing_from(self.pools@, p);
        if p < self.pools@.len() {
            self.lemma_listing_from(p + 1);
            let pool = self.pools@[p as int];
            assert(pool.wf());
            pool.lemma_dense();
            let head = Seq::new(pool.dense().len(), |d: int| p * 256 + pool.dense_key(d));
            let rk = Self::keys_from(self.pools@, p + 1);
            let rl = Self::listing_from(self.pools@, p + 1);
            assert(ks == head + rk);
            assert(ls == pool.dense() + rl);
            assert forall|d: int| 0 <= d < head.len() implies {
                let n = #[trigger] head[d];
                &&& self.has(n)
                &&& self.at(n) == pool.dense()[d]
                &&& n / 256 == p
            } by {
                let off = pool.dense_key(d);
                vstd::arithmetic::div_mod::lemma_fundamental_div_mod_converse(
                    (p * 256 + off) as int,
                    256,
                    p as int,
                    off as int,
                );
            }
            assert forall|i: int|
                0 <= i < ks.len() implies {
                    let n = #[trigger] ks[i];
                    &&& self.has(n)
                    &&& self.at(n) == ls[i]
                    &&& n / 256 >= p
                } by {
                if i < head.len() {
                    assert(ks[i] == head[i]);
                    assert(ls[i] == pool.dense()[i]);
                } else {
                    assert(ks[i] == rk[i - head.len()]);
                    assert(ls[i] == rl[i - head.len()]);
                }
            }
            assert forall|i: int, j: int| 0 <= i < j < ks.len() implies #[trigger] ks[i] != #[trigger] ks[j] by {
                if j < head.len() {
                    assert(ks[i] == head[i] && ks[j] == head[j]);
                    if head[i] == head[j] {
                        assert(pool.dense_key(i) != pool.dense_key(j));
                    }
                } else if i < head.len() {
                    assert(ks[i] == head[i]);
                    assert(ks[j] == rk[j - head.len()]);
                } else {
                    assert(ks[i] == rk[i - head.len()]);
                    assert(ks[j] == rk[j - head.len()]);
                }
            }
            assert forall|n: nat| #[trigger] self.has(n) && n / 256 >= p implies ks.contains(n) by {
                if n / 256 == p {
                    lemma_block_split(n);
                    let off = n % 256;
                    let d = choose|d: int| 0 <= d < pool.dense().len() && #[trigger] pool.dense_key(d) == off;
                    assert(head[d] == n);
                    assert(ks[d] == n);
                } else {
                    assert(rk.contains(n));
                    let i = choose|i: int| 0 <= i < rk.len() && rk[i] == n;
                    assert(ks[head.len() + i] == n);
                }
            }
        }
    }

    /// The iteration order lists every stored value exactly once, next to its identifier.
    pub proof fn lemma_listing(&self)
        requires
            self.wf(),
        ensures
            self.listing().len() == self.listing_keys().len(),
            self.listing().len() == self@.len(),
            forall|i: int|
                0 <= i < self.listing_keys().len() ==> #[trigger] self@.contains_key(self.listing_keys()[i])
                    && self@[self.listing_keys()[i]] == self.listing()[i],
            forall|i: int, j: int|
                0 <= i < j < self.listing_keys().len() ==> #[trigger] self.listing_keys()[i]
                    != #[trigger] self.listing_keys()[j],
            forall|n: nat| #[trigger] self@.contains_key(n) ==> self.listing_keys().contains(n),
    {
        self.lemma_listing_from(0);
        let ks = self.listing_keys();
        assert forall|i: int| 0 <= i < ks.len() implies #[trigger] self@.contains_key(ks[i])
            && self@[ks[i]] == self.listing()[i] by {
            assert(self.has(ks[i]));
        }
        assert forall|n: nat| #[trigger] self@.contains_key(n) implies ks.contains(n) by {
            assert(self.has(n));
        }
        assert(ks.no_duplicates()) by {
            assert forall|i: int, j: int| 0 <= i < ks.len() && 0 <= j < ks.len() && i != j implies ks[i]
                != ks[j] by {
                if i > j {
                    assert(ks[j] != ks[i]);
                }
            }
        }
        assert(ks.to_set() =~= self@.dom());
        ks.unique_seq_to_set();
    }

    /// When only pool `index` changes, only identifier `n` of that pool can change.
    proof fn lemma_pool_replaced(a: Self, b: Self, index: nat, n: nat)
        requires
            a.wf(),
            b.pools@.len() == a.pools@.len(),
            index < a.pools@.len(),
            n / 256 == index,
            forall|q: int| 0 <= q < a.pools@.len() && q != index ==> b.pools@[q] == a.pools@[q],
            b.pools@[index as int].wf(),
            forall|k: nat|
                k != n % 256 ==> (#[trigger] b.pools@[index as int].view().contains_key(k)
                    == a.pools@[index as int].view().contains_key(k)) && (a.pools@[index as int].view().contains_key(k)
                    ==> b.pools@[index as int].view()[k] == a.pools@[index as int].view()[k]),
        ensures
            b.wf(),
            forall|m: nat| m != n ==> #[trigger] b.has(m) == a.has(m) && (a.has(m) ==> b.at(m) == a.at(m)),
            b.has(n) == b.pools@[index as int].view().contains_key(n % 256),
            b.at(n) == b.pools@[index as int].view()[n % 256],
    {
        assert forall|m: nat| m != n implies #[trigger] b.has(m) == a.has(m) && (a.has(m) ==> b.at(m)
            == a.at(m)) by {
            let q = m / 256;
            let off = m % 256;
            if q == index {
                if off == n % 256 {
                    lemma_block_split(m);
                    lemma_block_split(n);
                    assert(m == n);
                } else {
                    assert(b.pools@[index as int].view().contains_key(off) == a.pools@[index as int].view().contains_key(off));
                }
            } else if q < a.pools@.len() {
                assert(b.pools@[q as int] == a.pools@[q as int]);
            }
        }
        assert forall|p: int| 0 <= p < b.pools@.len() implies #[trigger] b.pools@[p].wf() by {
            if p != index {
                assert(a.pools@[p].wf());
            }
        }
    }

    /// The listing of pools `q..` depends only on those pools.
    proof fn lemma_listing_suffix(
        a: Seq<Pool<V, E::Id, BLOCK_SIZE>>,
        b: Seq<Pool<V, E::Id, BLOCK_SIZE>>,
        q: nat,
    )
        requires
            a.len() == b.len(),
            forall|i: int| q <= i < a.len() ==> b[i] == a[i],
        ensures
            Self::listing_from(b, q) == Self::listing_from(a, q),
        decreases a.len() - q,
    {
        if q < a.len() {
            Self::lemma_listing_suffix(a, b, q + 1);
        }
    }

    /// The identifiers of pools `q..` depend only on those pools' offsets.
    proof fn lemma_keys_suffix(
        a: Seq<Pool<V, E::Id, BLOCK_SIZE>>,
        b: Seq<Pool<V, E::Id, BLOCK_SIZE>>,
        q: nat,
    )
        requires
            a.len() == b.len(),
            forall|i: int| q <= i < a.len() ==> b[i] == a[i],
        ensures
            Self::keys_from(b, q) == Self::keys_from(a, q),
        decreases a.len() - q,
    {
        if q < a.len() {
            Self::lemma_keys_suffix(a, b, q + 1);
        }
    }

    /// Splits an entity's identifier into a pool number and an offset.
    fn locate(entity: &E) -> (r: (usize, E::Id))
        requires
            Self::id_fits(),
        ensures
            r.0 == entity.spec_id() / 256,
            r.1.spec_subscript() == entity.spec_id() % 256,
            r.0 as nat * 256 + r.1.spec_subscript() == entity.spec_id(),
    {
        let (index, offset) = entity.locate::<BLOCK_SIZE>();
        proof {
            lemma_block_split(entity.spec_id());
        }
        (index.into_subscript(), offset)
    }

    /// After `insert` of a value for an entity whose identifier held nothing,
    /// `get` gives that value, and `remove` takes it out again and leaves the
    /// map as it was.
    pub proof fn law_insert_get_remove(a: Self, b: Self, c: Self, entity: E, value: V)
        requires
            !a@.contains_key(entity.spec_id()),
            b@ == a@.insert(entity.spec_id(), value),
            c@ == b@.remove(entity.spec_id()),
        ensures
            b@.contains_key(entity.spec_id()),
            b@[entity.spec_id()] == value,
            c@ == a@,
    {
        assert(c@ =~= a@);
    }

    /// Creates an empty map.
    pub fn new() -> (r: Self)
        ensures
            r.wf(),
            r@ == Map::<nat, V>::empty(),
    {
        let r = EntityMap { pools: Vec::new() };
        assert(r.entries() =~= Map::<nat, V>::empty());
        r
    }

    /// Whether a value is stored for the entity's identifier.
    pub fn contains(&self, entity: E) -> (r: bool)
        requires
            self.wf(),
            Self::id_fits(),
        ensures
            r == self@.contains_key(entity.spec_id()),
    {
        let (index, offset) = Self::locate(&entity);
        if index < self.pools.len() {
            let pool = &self.pools[index];
            proof {
                assert(pool.wf());
            }
            pool.contains(offset)
        } else {
            false
        }
    }

    /// The value stored for the entity's identifier, which must hold one.
    pub fn get(&self, entity: E) -> (r: &V)
        requires
            self.wf(),
            Self::id_fits(),
            self@.contains_key(entity.spec_id()),
        ensures
            *r == self@[entity.spec_id()],
    {
        let (index, offset) = Self::locate(&entity);
        let pool = &self.pools[index];
        proof {
            assert(pool.wf());
        }
        pool.get(offset)
    }

    /// Mutable access to the value stored for the entity's identifier, which must hold one.
    pub fn get_mut(&mut self, entity: E) -> (r: &mut V)
        requires
            old(self).wf(),
            Self::id_fits(),
            old(self)@.contains_key(entity.spec_id()),
        ensures
            *r == old(self)@[entity.spec_id()],
            final(self).wf(),
            final(self)@ == old(self)@.insert(entity.spec_id(), *final(r)),
    {
        let ghost n = entity.spec_id();
        let (index, offset) = Self::locate(&entity);
        proof {
            let a = *old(self);
            assert(a.pools@[index as int].wf());
            assert forall|b: Self|
                #![trigger b.wf()]
                #![trigger b.view()]
                b.pools@.len() == a.pools@.len() && (forall|q: int|
                    0 <= q < a.pools@.len() && q != index ==> b.pools@[q] == a.pools@[q])
                    && Pool::same_shape(a.pools@[index as int], b.pools@[index as int])
                    && b.pools@[index as int].view() == a.pools@[index as int].view().insert(
                    n % 256,
                    b.pools@[index as int].view()[n % 256],
                ) implies b.wf() && b.view() == a.view().insert(n, b.pools@[index as int].view()[n % 256]) by {
                Pool::lemma_same_shape(a.pools@[index as int], b.pools@[index as int]);
                Self::lemma_pool_replaced(a, b, index as nat, n);
                assert(b.entries() =~= a.entries().insert(n, b.pools@[index as int].view()[n % 256]));
            }
        }
        let pool = &mut self.pools[index];
        pool.get_mut(offset)
    }

    /// Stores `value` for the entity's identifier, which must hold no value.
    pub fn insert(&mut self, entity: E, value: V)
        requires
            old(self).wf(),
            Self::id_fits(),
            !old(self)@.contains_key(entity.spec_id()),
        ensures
            final(self).wf(),
            final(self)@ == old(self)@.insert(entity.spec_id(), value),
    {
        let ghost old_self = *self;
        let ghost n = entity.spec_id();
        let (index, offset) = Self::locate(&entity);
        while self.pools.len() <= index
            invariant
                self.wf(),
                self.entries() == old_self.entries(),
                Self::id_fits(),
            decreases index + 1 - self.pools.len(),
        {
            let ghost before = *self;
            let pool = Pool::new();
            self.pools.push(pool);
            proof {
                assert forall|m: nat| self.has(m) == before.has(m) by {
                    if m / 256 < before.pools@.len() {
                        assert(self.pools@[(m / 256) as int] == before.pools@[(m / 256) as int]);
                    }
                }
                assert forall|m: nat| #[trigger] self.has(m) implies self.at(m) == before.at(m) by {
                    assert(self.pools@[(m / 256) as int] == before.pools@[(m / 256) as int]);
                }
                assert(self.entries() =~= before.entries());
                assert forall|p: int| 0 <= p < self.pools@.len() implies #[trigger] self.pools@[p].wf() by {
                    if p < before.pools@.len() {
                        assert(before.pools@[p].wf());
                    }
                }
            }
        }
        let ghost mid = *self;
        proof {
            assert(self.pools@[index as int].wf());
        }
        self.pools[index].insert(offset, value);
        proof {
            Self::lemma_pool_replaced(mid, *self, index as nat, n);
            assert(self.entries() =~= mid.entries().insert(n, value));
        }
    }

    /// Removes and returns the value stored for the entity's identifier, which must hold one.
    pub fn remove(&mut self, entity: E) -> (r: V)
        requires
            old(self).wf(),
            Self::id_fits(),
            old(self)@.contains_key(entity.spec_id()),
        ensures
            final(self).wf(),
            r == old(self)@[entity.spec_id()],
            final(self)@ == old(self)@.remove(entity.spec_id()),
    {
        let ghost mid = *self;
        let ghost n = entity.spec_id();
        let (index, offset) = Self::locate(&entity);
        proof {
            assert(self.pools@[index as int].wf());
        }
        let r = self.pools[index].remove(offset);
        proof {
            Self::lemma_pool_replaced(mid, *self, index as nat, n);
            assert(self.entries() =~= mid.entries().remove(n));
        }
        r
    }

    /// Mutable iteration over the stored values, pool by pool.
    pub fn iter_mut(&mut self) -> (r: MapIterMut<'_, E, V>)
        requires
            old(self).wf(),
        ensures
            r.valid(),
            r.target() == *old(self),
            r.remaining() == old(self).listing(),
            r.remaining_keys() == old(self).listing_keys(),
            *final(self) == *final(r.map_ref()),
    {
        let r = MapIterMut { map: self, pool: 0, dense: 0 };
        proof {
            if r.map.pools@.len() > 0 {
                assert(r.map.pools@[0].dense().subrange(0, r.map.pools@[0].dense().len() as int)
                    =~= r.map.pools@[0].dense());
            }
        }
        r
    }

    /// Iteration over the stored values, pool by pool.
    pub fn iter(&self) -> (r: MapIter<'_, E, V>)
        ensures
            r.valid(),
            r.remaining() == self.listing(),
    {
        let r = MapIter { pools: self.pools.as_slice(), next_pool: 0, pairs: PoolIter::empty() };
        assert(r.remaining() =~= self.listing());
        r
    }
}

/// Iteration over the values of an `EntityMap`, pool by pool.
pub struct MapIter<'a, E: EntityOps, V> {
    pools: &'a [Pool<V, E::Id, BLOCK_SIZE>],
    next_pool: usize,
    pairs: PoolIter<'a, V, E::Id>,
}

impl<'a, E: EntityOps, V> MapIter<'a, E, V> {
    /// The values not yet handed out.
    pub closed spec fn remaining(&self) -> Seq<V> {
        self.pairs.remaining() + EntityMap::<E, V>::listing_from(self.pools@, self.next_pool as nat)
    }

    /// The cursor's internal invariant.
    pub closed spec fn valid(&self) -> bool {
        &&& self.pairs.valid()
        &&& self.next_pool <= self.pools@.len()
    }

    /// The next value, or `None` at the end.
    pub fn next(&mut self) -> (r: Option<&'a V>)
        requires
            old(self).valid(),
        ensures
            final(self).valid(),
            old(self).remaining().len() == 0 ==> r is None,
            old(self).remaining().len() > 0 ==> r is Some && *r->0 == old(self).remaining()[0]
                && final(self).remaining() == old(self).remaining().drop_first(),
    {
        loop
            invariant
                self.valid(),
                self.remaining() == old(self).remaining(),
            decreases self.pools@.len() - self.next_pool,
        {
            let ghost before = self.pairs.remaining();
            if let Some(v) = self.pairs.next() {
                proof {
                    assert(self.remaining() =~= old(self).remaining().drop_first());
                }
                return Some(v);
            }
            if self.next_pool < self.pools.len() {
                let pool = &self.pools[self.next_pool];
                self.pairs = pool.iter();
                self.next_pool = self.next_pool + 1;
                proof {
                    assert(self.remaining() =~= old(self).remaining());
                }
            } else {
                return None;
            }
        }
    }
}

/// Mutable iteration over the values of an `EntityMap`, pool by pool; each call
/// of `next` hands out one value.
pub struct MapIterMut<'a, E: EntityOps, V> {
    map: &'a mut EntityMap<E, V>,
    pool: usize,
    dense: usize,
}

impl<'a, E: EntityOps, V> MapIterMut<'a, E, V> {
    /// The borrow of the map being iterated.
    pub closed spec fn map_ref(&self) -> &'a mut EntityMap<E, V> {
        self.map
    }

    /// Once the cursor is no longer used, the map ends as the cursor's
    /// target, which is well formed.
    pub proof fn lemma_resolved(&self)
        requires
            self.valid(),
            has_resolved(*self),
        ensures
            *final(self.map_ref()) == self.target(),
            self.target().wf(),
    {
    }

    /// The map being iterated, as it stands now.
    pub closed spec fn target(&self) -> EntityMap<E, V> {
        *self.map
    }

    /// The values not yet handed out.
    pub closed spec fn remaining(&self) -> Seq<V> {
        if self.pool < self.map.pools@.len() {
            self.map.pools@[self.pool as int].dense().subrange(
                self.dense as int,
                self.map.pools@[self.pool as int].dense().len() as int,
            ) + EntityMap::<E, V>::listing_from(self.map.pools@, (self.pool + 1) as nat)
        } else {
            Seq::empty()
        }
    }

    /// The identifiers of the values of pool `p` from dense position `d` on,
    /// followed by those of the later pools.
    spec fn keys_at(pools: Seq<Pool<V, E::Id, BLOCK_SIZE>>, p: nat, d: nat) -> Seq<nat> {
        Seq::new(
            (pools[p as int].dense().len() - d) as nat,
            |i: int| p * 256 + pools[p as int].dense_key(d + i),
        ) + EntityMap::<E, V>::keys_from(pools, p + 1)
    }

    /// The identifiers of the values not yet handed out, in the same order.
    pub closed spec fn remaining_keys(&self) -> Seq<nat> {
        if self.pool < self.map.pools@.len() {
            Self::keys_at(self.map.pools@, self.pool as nat, self.dense as nat)
        } else {
            Seq::empty()
        }
    }

    /// The cursor's internal invariant.
    pub closed spec fn valid(&self) -> bool {
        &&& self.map.wf()
        &&& self.pool <= self.map.pools@.len()
        &&& self.pool < self.map.pools@.len() ==> self.dense <= self.map.pools@[self.pool as int].dense().len()
        &&& self.pool == self.map.pools@.len() ==> self.dense == 0
    }

    /// Hands out the next value for mutation, or `None` at the end.
    #[verifier::spinoff_prover]
    #[verifier::rlimit(40)]
    pub fn next(&mut self) -> (r: Option<&mut V>)
        requires
            old(self).valid(),
        ensures
            final(self).valid(),
            *final(final(self).map_ref()) == *final(old(self).map_ref()),
            old(self).remaining().len() == 0 ==> r is None && final(self).target() == old(self).target(),
            old(self).remaining().len() > 0 ==> r is Some,
            old(self).remaining().len() > 0 ==> *r->0 == old(self).remaining()[0],
            old(self).remaining().len() > 0 ==> final(self).remaining() == old(self).remaining().drop_first(),
            old(self).remaining().len() > 0 ==> {
                let k = old(self).remaining_keys()[0];
                &&& old(self).remaining_keys().len() > 0
                &&& old(self).target()@.contains_key(k)
                &&& old(self).target()@[k] == *r->0
                &&& final(self).target()@ == old(self).target()@.insert(k, *final(r->0))
                &&& final(self).remaining_keys() == old(self).remaining_keys().drop_first()
            },
            old(self).remaining().len() == 0 ==> final(self).remaining_keys() == old(self).remaining_keys(),
    {
        loop
            invariant
                self.valid(),
                self.target() == old(self).target(),
                self.remaining() == old(self).remaining(),
                self.remaining_keys() == old(self).remaining_keys(),
                *final(self.map) == *final(old(self).map),
            decreases self.map.pools@.len() - self.pool,
        {
            if self.pool >= self.map.pools.len() {
                return None;
            }
            if self.dense < self.map.pools[self.pool].values.len() {
                let p = self.pool;
                let d = self.dense;
                self.dense = self.dense + 1;
                proof {
                    let a = *self.map;
                    let pa = a.pools@[p as int];
                    assert(pa.wf());
                    pa.lemma_dense();
                    let k = pa.dense_key(d as int);
                    let n: nat = (p * 256 + k) as nat;
                    vstd::arithmetic::div_mod::lemma_fundamental_div_mod_converse(n as int, 256, p as int, k as int);
                    assert forall|b: EntityMap<E, V>|
                        #![trigger b.wf()]
                        #![trigger b.view()]
                        #![trigger EntityMap::<E, V>::listing_from(b.pools@, (p + 1) as nat)]
                        #![trigger Self::keys_at(b.pools@, p as nat, (d + 1) as nat)]
                        b.pools@.len() == a.pools@.len() && (forall|q: int|
                            0 <= q < a.pools@.len() && q != p ==> b.pools@[q] == a.pools@[q])
                            && b.pools@[p as int].value_indices@ == pa.value_indices@
                            && b.pools@[p as int].values@ == pa.values@.update(
                            d as int,
                            (pa.values@[d as int].0, b.pools@[p as int].values@[d as int].1),
                        ) implies b.wf() && b.view() == a.view().insert(n, b.pools@[p as int].values@[d as int].1)
                        && EntityMap::<E, V>::listing_from(b.pools@, (p + 1) as nat) == EntityMap::<E, V>::listing_from(
                        a.pools@,
                        (p + 1) as nat,
                    ) && b.pools@[p as int].dense().subrange(d + 1, pa.dense().len() as int)
                        == pa.dense().subrange(d + 1, pa.dense().len() as int)
                        && b.pools@[p as int].dense().len() == pa.dense().len()
                        && Self::keys_at(b.pools@, p as nat, (d + 1) as nat) == Self::keys_at(
                        a.pools@,
                        p as nat,
                        (d + 1) as nat,
                    ) by {
                        let pb = b.pools@[p as int];
                        assert(Pool::same_shape(pa, pb));
                        Pool::lemma_same_shape(pa, pb);
                        let v2 = pb.values@[d as int].1;
                        assert forall|kk: nat| kk != k implies (#[trigger] pb.view().contains_key(kk)
                            == pa.view().contains_key(kk)) && (pa.view().contains_key(kk) ==> pb.view()[kk]
                            == pa.view()[kk]) by {
                            if pa.occupied(kk) {
                                assert(pa.dense_of(kk) != d);
                            }
                        }
                        assert(pa.occupied(k));
                        EntityMap::lemma_pool_replaced(a, b, p as nat, n);
                        assert(b.entries() =~= a.entries().insert(n, v2));
                        EntityMap::<E, V>::lemma_listing_suffix(a.pools@, b.pools@, (p + 1) as nat);
                        EntityMap::<E, V>::lemma_keys_suffix(a.pools@, b.pools@, (p + 1) as nat);
                        assert(Self::keys_at(b.pools@, p as nat, (d + 1) as nat) =~= Self::keys_at(
                            a.pools@,
                            p as nat,
                            (d + 1) as nat,
                        ));
                        assert(pb.dense().subrange(d + 1, pa.dense().len() as int) =~= pa.dense().subrange(
                            d + 1,
                            pa.dense().len() as int,
                        ));
                    }
                    assert(old(self).remaining()[0] == pa.dense()[d as int]);
                    assert(old(self).remaining_keys()[0] == n);
                    assert(old(self).remaining_keys().drop_first() =~= Self::keys_at(
                        a.pools@,
                        p as nat,
                        (d + 1) as nat,
                    ));
                    assert(old(self).remaining().drop_first() =~= pa.dense().subrange(
                        d + 1,
                        pa.dense().len() as int,
                    ) + EntityMap::<E, V>::listing_from(a.pools@, (p + 1) as nat));
                    assert(a.view().contains_key(n));
                }
                let pool = &mut self.map.pools[p];
                let pair = &mut pool.values[d];
                return Some(&mut pair.1);
            }
            self.pool = self.pool + 1;
            self.dense = 0;
            proof {
                if self.pool < self.map.pools@.len() {
                    let pp = self.map.pools@[self.pool as int];
                    assert(pp.dense().subrange(0, pp.dense().len() as int) =~= pp.dense());
                }
                assert(self.remaining() =~= old(self).remaining());
                assert(self.remaining_keys() =~= old(self).remaining_keys());
            }
        }
    }
}


} // verus!
