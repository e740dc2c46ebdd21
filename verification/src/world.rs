//! The world's bookkeeping: entity allocation, and a complete tree of
//! component storages.
//!
//! Node `0` is the root, and the children of node `p` are the nodes
//! `p * ORDER + s + 1` for `s < ORDER`, where `ORDER` is the number of bits of
//! a `BitSet`. The node of a component type is its registration index. For each
//! entity, every node keeps a `BitSet` of the child subtrees in which the
//! entity holds components, so that removing an entity only visits the
//! subtrees where it holds something.

use vstd::prelude::*;
use crate::bit_set::BitSet;
use crate::component::{entity_key, ComponentEntry, ComponentHandle, ComponentStorage};
use crate::entity::{Entity, EntityInternal, Entity16, Entity32, Entity64};
use crate::entity_fields::{next_version, EntityId, EntityVer};
use crate::entity_map::EntityMap;

verus! {

/// The branching factor of the tree: the number of bits of a `BitSet`.
pub open spec fn order() -> nat {
    usize::BITS as nat
}

/// The parent of node `i > 0`.
pub open spec fn parent(i: nat) -> nat {
    ((i - 1) as nat) / order()
}

/// The position of node `i > 0` among the children of its parent.
pub open spec fn slot(i: nat) -> nat {
    ((i - 1) as nat) % order()
}

/// Child number `s` of node `p`.
pub open spec fn child(p: nat, s: nat) -> nat {
    p * order() + s + 1
}

/// The branching factor is at least two.
pub proof fn lemma_order()
    ensures
        order() == 32 || order() == 64,
        order() == BitSet::BITS,
{
}

/// A node's parent comes before it.
pub proof fn lemma_parent_lt(i: nat)
    requires
        i > 0,
    ensures
        parent(i) < i,
        slot(i) < order(),
        child(parent(i), slot(i)) == i,
{
    lemma_order();
    vstd::arithmetic::div_mod::lemma_fundamental_div_mod((i - 1) as int, order() as int);
    if i > 1 {
        vstd::arithmetic::div_mod::lemma_div_decreases((i - 1) as int, order() as int);
    }
    assert(child(parent(i), slot(i)) == parent(i) * order() + slot(i) + 1);
}

/// The parent of child number `s` of `p` is `p`, at position `s`.
pub proof fn lemma_child(p: nat, s: nat)
    requires
        s < order(),
    ensures
        child(p, s) > p,
        parent(child(p, s)) == p,
        slot(child(p, s)) == s,
{
    lemma_order();
    vstd::arithmetic::div_mod::lemma_fundamental_div_mod_converse(
        (p * order() + s) as int,
        order() as int,
        p as int,
        s as int,
    );
    assert(p * order() >= p) by (nonlinear_arith)
        requires
            order() >= 1,
    ;
}

/// Whether node `i` lies in the subtree rooted at node `a`.
pub open spec fn in_subtree(i: nat, a: nat) -> bool
    decreases i,
{
    if i == a {
        true
    } else if i == 0 {
        false
    } else {
        proof {
            lemma_parent_lt(i);
        }
        in_subtree(parent(i), a)
    }
}

/// The nodes of a subtree come no earlier than its root.
pub proof fn lemma_subtree_ge(i: nat, a: nat)
    requires
        in_subtree(i, a),
    ensures
        i >= a,
    decreases i,
{
    if i != a {
        lemma_parent_lt(i);
        lemma_subtree_ge(parent(i), a);
    }
}

/// Every node lies in the subtree of the root.
pub proof fn lemma_subtree_root(i: nat)
    ensures
        in_subtree(i, 0),
    decreases i,
{
    if i != 0 {
        lemma_parent_lt(i);
        lemma_subtree_root(parent(i));
    }
}

/// A subtree of a subtree is part of it.
pub proof fn lemma_subtree_trans(i: nat, b: nat, a: nat)
    requires
        in_subtree(i, b),
        in_subtree(b, a),
    ensures
        in_subtree(i, a),
    decreases i,
{
    if i != b {
        lemma_parent_lt(i);
        lemma_subtree_trans(parent(i), b, a);
    }
}

/// The roots of two subtrees that share a node lie one in the other's subtree.
pub proof fn lemma_subtree_linear(i: nat, a: nat, b: nat)
    requires
        in_subtree(i, a),
        in_subtree(i, b),
    ensures
        in_subtree(a, b) || in_subtree(b, a),
    decreases i,
{
    if i != a && i != b {
        lemma_parent_lt(i);
        lemma_subtree_linear(parent(i), a, b);
    }
}

/// The subtrees of two different children of a node share no node.
pub proof fn lemma_children_disjoint(i: nat, r: nat, s1: nat, s2: nat)
    requires
        s1 < order(),
        s2 < order(),
        s1 != s2,
    ensures
        !(in_subtree(i, child(r, s1)) && in_subtree(i, child(r, s2))),
{
    if in_subtree(i, child(r, s1)) && in_subtree(i, child(r, s2)) {
        lemma_child(r, s1);
        lemma_child(r, s2);
        lemma_subtree_linear(i, child(r, s1), child(r, s2));
        if in_subtree(child(r, s1), child(r, s2)) {
            lemma_subtree_above_child(child(r, s1), r, s2);
        } else {
            lemma_subtree_above_child(child(r, s2), r, s1);
        }
    }
}

/// A child of `r` other than child `s` is not in the subtree of child `s`.
proof fn lemma_subtree_above_child(c: nat, r: nat, s: nat)
    requires
        s < order(),
        c > 0,
        parent(c) == r,
        c != child(r, s),
    ensures
        !in_subtree(c, child(r, s)),
{
    lemma_child(r, s);
    if in_subtree(c, child(r, s)) {
        lemma_subtree_ge(parent(c), child(r, s));
    }
}

/// The child of node `j` on the way down from `j` to node `i`, for `j` above `i`.
pub open spec fn toward(i: nat, j: nat) -> nat
    decreases i,
{
    if i == 0 {
        0
    } else if parent(i) == j {
        i
    } else {
        proof {
            lemma_parent_lt(i);
        }
        toward(parent(i), j)
    }
}

/// The child of `j` on the way down to `i` is the child of `j` above `i`.
proof fn lemma_toward(i: nat, j: nat, c: nat)
    requires
        c > 0,
        parent(c) == j,
        in_subtree(i, c),
    ensures
        toward(i, j) == c,
    decreases i,
{
    lemma_parent_lt(c);
    if i != c {
        lemma_parent_lt(i);
        if parent(i) == j {
            lemma_subtree_ge(parent(i), c);
        } else {
            lemma_toward(parent(i), j, c);
        }
    }
}

/// Moving up from `now` to its parent `p` adds exactly `p` to the nodes of
/// the path to `index` that lie above the current position.
proof fn lemma_path_step(index: nat, j: nat, now: nat)
    requires
        now > 0,
        in_subtree(index, j),
        in_subtree(index, now),
        j != parent(now),
    ensures
        in_subtree(j, parent(now)) == in_subtree(j, now),
{
    lemma_parent_lt(now);
    let p = parent(now);
    assert(in_subtree(p, p));
    assert(in_subtree(now, p));
    if in_subtree(j, now) {
        lemma_subtree_trans(j, now, p);
    }
    if in_subtree(j, p) {
        lemma_subtree_linear(index, j, now);
        if !in_subtree(j, now) {
            assert(in_subtree(now, j));
            assert(now != j);
            assert(in_subtree(p, j));
            lemma_subtree_ge(p, j);
            lemma_subtree_ge(j, p);
        }
    }
}

/// An entity handed out again after removal has the removed entity's
/// identifier and a different version, as long as versions can take more
/// than one value.
pub proof fn law_recycled_entity_differs<E: Entity>(removed: E, recycled: E)
    requires
        1 <= removed.spec_ver().spec_value() <= E::Ver::spec_max(),
        E::Ver::spec_max() > 1,
        recycled.spec_id() == removed.spec_id(),
        recycled.spec_ver().spec_value() == next_version(removed.spec_ver().spec_value(), E::Ver::spec_max()),
    ensures
        recycled != removed,
        recycled.spec_ver() != removed.spec_ver(),
{
}

/// A node of the tree: a component storage, and for each entity the set of
/// child subtrees in which it holds components.
struct ComponentNode<E: Entity, S> {
    entry: S,
    bit_signs: EntityMap<E, BitSet>,
}

impl<E: Entity, S: ComponentEntry<E>> ComponentNode<E, S> {
    /// The child subtree sets, by entity key.
    spec fn sign_map(&self) -> Map<nat, Set<nat>> {
        Map::new(|n: nat| self.bit_signs@.contains_key(n), |n: nat| self.bit_signs@[n].1@)
    }

    /// The child subtrees in which the entity of key `n` holds components.
    spec fn signs(&self, n: nat) -> Set<nat> {
        if self.bit_signs@.contains_key(n) {
            self.bit_signs@[n].1@
        } else {
            Set::empty()
        }
    }

    /// Whether the entity of key `n` holds this component or has subtree signs here.
    spec fn present(&self, n: nat) -> bool {
        self.entry.holders().contains(n) || self.bit_signs@.contains_key(n)
    }

    /// The node's internal invariant.
    spec fn wf(&self) -> bool {
        self.entry.entry_wf() && self.bit_signs.wf()
    }

    /// Creates a node for a storage.
    fn new(entry: S) -> (r: Self)
        requires
            E::Id::spec_mask() < usize::MAX,
        ensures
            r.entry == entry,
            r.bit_signs.wf(),
            r.bit_signs@ == Map::<nat, (E, BitSet)>::empty(),
    {
        ComponentNode { entry, bit_signs: EntityMap::new() }
    }

    /// Marks child subtree `sign` as holding components of the entity.
    fn insert_sign(&mut self, entity: E, sign: usize)
        requires
            old(self).wf(),
            sign < BitSet::BITS,
        ensures
            final(self).wf(),
            final(self).entry == old(self).entry,
            final(self).sign_map() == old(self).sign_map().insert(
                entity_key(entity),
                old(self).signs(entity_key(entity)).insert(sign as nat),
            ),
    {
        let ghost n = entity_key(entity);
        match self.bit_signs.get_mut(entity) {
            None => {
                proof {
                    BitSet::lemma_single(sign);
                }
                let signs = BitSet::new(1 << sign);
                self.bit_signs.insert(entity, signs);
            },
            Some(signs) => {
                signs.insert(sign);
            },
        }
        assert(self.sign_map() =~= old(self).sign_map().insert(n, old(self).signs(n).insert(sign as nat)));
    }

    /// Clears child subtree `sign` from the marks of the entity.
    fn remove_sign(&mut self, entity: E, sign: usize)
        requires
            old(self).wf(),
            sign < BitSet::BITS,
        ensures
            final(self).wf(),
            final(self).entry == old(self).entry,
            final(self).sign_map() == (if old(self).sign_map().contains_key(entity_key(entity)) {
                old(self).sign_map().insert(
                    entity_key(entity),
                    old(self).signs(entity_key(entity)).remove(sign as nat),
                )
            } else {
                old(self).sign_map()
            }),
    {
        let ghost n = entity_key(entity);
        if let Some(signs) = self.bit_signs.get_mut(entity) {
            signs.remove(sign);
        }
        assert(self.sign_map() =~= (if old(self).sign_map().contains_key(n) {
            old(self).sign_map().insert(n, old(self).signs(n).remove(sign as nat))
        } else {
            old(self).sign_map()
        }));
    }

    /// Removes the entity's component from this node's storage.
    fn remove_without_value(&mut self, entity: E)
        requires
            old(self).wf(),
        ensures
            final(self).wf(),
            final(self).bit_signs == old(self).bit_signs,
            final(self).entry.holders() == old(self).entry.holders().remove(entity_key(entity)),
            exists|m: &mut S|
                mut_ref_current(m) == old(self).entry && mut_ref_future(m) == final(self).entry
                    && #[trigger] call_ensures(S::remove_without_value, (m, entity), ()),
    {
        // Called through a function value, so that what the storage's own
        // contract says of the call is kept as `call_ensures`.
        let remove = S::remove_without_value;
        remove(&mut self.entry, entity);
    }

    /// The number of entities holding this node's component.
    fn len(&self) -> (r: usize)
        requires
            self.wf(),
        ensures
            r == self.entry.holders().len(),
    {
        self.entry.len()
    }
}

/// The world's bookkeeping for entities of type `E` with storages of type `S`:
/// entity allocation, and the tree of component storages with its subtree signs.
pub struct RawWorld<E: EntityInternal, S: ComponentEntry<E>> {
    components: Vec<ComponentNode<E, S>>,
    next_entity_id: Option<E::Id>,
    removed_entities: Vec<E>,
}

impl<E: EntityInternal, S: ComponentEntry<E>> RawWorld<E, S> {
    /// The number of nodes in the tree.
    pub closed spec fn node_count(&self) -> nat {
        self.components@.len()
    }

    /// The storage of node `i`.
    pub closed spec fn entry_at(&self, i: nat) -> S {
        self.components@[i as int].entry
    }

    /// The keys of the entities holding the component of node `i`.
    pub open spec fn holders(&self, i: nat) -> Set<nat> {
        self.entry_at(i).holders()
    }

    /// The subtree signs of node `i`: for each entity key with signs there, the
    /// child positions whose subtrees hold components of that entity.
    pub closed spec fn sign_map(&self, i: nat) -> Map<nat, Set<nat>> {
        self.components@[i as int].sign_map()
    }

    /// The child positions of node `i` marked for the entity of key `n`.
    pub open spec fn signs(&self, i: nat, n: nat) -> Set<nat> {
        if self.sign_map(i).contains_key(n) {
            self.sign_map(i)[n]
        } else {
            Set::empty()
        }
    }

    /// Whether the entity of key `n` holds the component of node `i` or has signs there.
    pub open spec fn present(&self, i: nat, n: nat) -> bool {
        self.holders(i).contains(n) || self.sign_map(i).contains_key(n)
    }

    /// Whether every node below `root` where the entity of key `n` is present
    /// is marked in its parent.
    pub open spec fn marked_below(&self, root: nat, n: nat) -> bool {
        forall|i: nat|
            #![trigger self.present(i, n), in_subtree(i, root)]
            0 < i < self.node_count() && i != root && in_subtree(i, root) && self.present(i, n)
                ==> self.signs(parent(i), n).contains(slot(i))
    }

    /// The signs of node `j` after marking, for the entity of key `n`, the
    /// path from node `index` up to the root (only the part at and above node
    /// `top`): each node above `index` gets the position of its child on the path.
    pub open spec fn marked_upto(&self, index: nat, top: nat, n: nat, j: nat) -> Map<nat, Set<nat>> {
        if in_subtree(index, j) && j != index && in_subtree(j, top) {
            self.sign_map(j).insert(n, self.signs(j, n).insert(slot(toward(index, j))))
        } else {
            self.sign_map(j)
        }
    }

    /// The signs of node `j` after marking, for the entity of key `n`, the
    /// whole path from node `index` up to the root.
    pub open spec fn marked(&self, index: nat, n: nat, j: nat) -> Map<nat, Set<nat>> {
        self.marked_upto(index, 0, n, j)
    }

    /// The identifier the next fresh entity gets, if identifiers remain.
    pub closed spec fn next_id(&self) -> Option<nat> {
        match self.next_entity_id {
            Some(id) => Some(id.spec_index()),
            None => None,
        }
    }

    /// Removed entities, whose identifiers are handed out again (last first).
    pub closed spec fn recycled(&self) -> Seq<E> {
        self.removed_entities@
    }

    /// Every node is well formed.
    pub closed spec fn nodes_wf(&self) -> bool {
        &&& E::Id::spec_mask() < usize::MAX
        &&& forall|i: int| 0 <= i < self.components@.len() ==> #[trigger] self.components@[i].wf()
    }

    /// The world's invariant: every node is well formed, and wherever an entity
    /// is present below the root, its parent marks that subtree for it.
    pub closed spec fn wf(&self) -> bool {
        &&& self.nodes_wf()
        &&& forall|n: nat| #[trigger] self.marked_below(0, n)
    }

    /// In a well-formed world, wherever an entity holds a component or has
    /// signs below the root, the parent of that node marks the node's subtree
    /// for the entity; so the signs lead from the root to every storage that
    /// holds the entity. Every operation keeps this.
    pub proof fn lemma_signs_lead_to_holders(&self, n: nat)
        requires
            self.wf(),
        ensures
            self.marked_below(0, n),
    {
    }

    /// The invariant depends on the nodes alone.
    proof fn lemma_same_nodes(a: Self, b: Self)
        requires
            a.wf(),
            a.components@ == b.components@,
        ensures
            b.wf(),
    {
        assert forall|n: nat| #[trigger] b.marked_below(0, n) by {
            assert(a.marked_below(0, n));
            assert forall|i: nat|
                0 < i < b.node_count() && i != 0 && in_subtree(i, 0nat) && #[trigger] b.present(i, n)
                implies b.signs(parent(i), n).contains(slot(i)) by {
                assert(a.present(i, n));
            }
        }
    }

    /// Marking the path from node `index` to the root for one entity keeps the
    /// invariant, and marks `index` in its parent.
    proof fn lemma_marked_wf(a: Self, b: Self, index: nat, n: nat)
        requires
            a.wf(),
            b.nodes_wf(),
            index < a.node_count(),
            b.node_count() == a.node_count(),
            forall|i: nat| i < a.node_count() ==> #[trigger] b.entry_at(i) == a.entry_at(i),
            forall|j: nat| j < a.node_count() ==> #[trigger] b.sign_map(j) == a.marked(index, n, j),
        ensures
            b.wf(),
            index > 0 ==> b.signs(parent(index), n).contains(slot(index)),
    {
        assert forall|m: nat| #[trigger] b.marked_below(0, m) by {
            assert(a.marked_below(0, m));
            assert forall|i: nat|
                0 < i < b.node_count() && i != 0 && in_subtree(i, 0nat) && #[trigger] b.present(i, m)
                implies b.signs(parent(i), m).contains(slot(i)) by {
                lemma_parent_lt(i);
                let p = parent(i);
                assert(b.entry_at(i) == a.entry_at(i));
                assert(b.sign_map(i) == a.marked(index, n, i));
                assert(b.sign_map(p) == a.marked(index, n, p));
                lemma_subtree_root(i);
                lemma_subtree_root(p);
                if a.present(i, m) {
                    assert(a.signs(p, m).contains(slot(i)));
                } else {
                    assert(m == n);
                    assert(in_subtree(index, i) && i != index);
                    assert(in_subtree(i, p)) by {
                        assert(in_subtree(p, p));
                    }
                    lemma_subtree_trans(index, i, p);
                    lemma_subtree_ge(index, i);
                    lemma_toward(index, p, i);
                }
            }
        }
        if index > 0 {
            lemma_parent_lt(index);
            let p = parent(index);
            assert(in_subtree(index, index));
            assert(in_subtree(p, p));
            assert(in_subtree(index, p));
            lemma_subtree_root(p);
            lemma_toward(index, p, index);
            assert(b.sign_map(p) == a.marked(index, n, p));
        }
    }

    /// Marks, for the entity, each node above node `index` with the position of
    /// its child on the path down to `index`.
    #[verifier::spinoff_prover]
    fn mark_path(&mut self, entity: E, index: usize)
        requires
            old(self).wf(),
            index < old(self).node_count(),
        ensures
            final(self).wf(),
            final(self).node_count() == old(self).node_count(),
            forall|i: nat| i < old(self).node_count() ==> #[trigger] final(self).entry_at(i) == old(self).entry_at(i),
            forall|j: nat|
                j < old(self).node_count() ==> #[trigger] final(self).sign_map(j) == old(self).marked(
                    index as nat,
                    entity_key(entity),
                    j,
                ),
            final(self).next_id() == old(self).next_id(),
            final(self).recycled() == old(self).recycled(),
            index > 0 ==> final(self).signs(parent(index as nat), entity_key(entity)).contains(
                slot(index as nat),
            ),
    {
        let ghost n = entity_key(entity);
        let ghost a = *old(self);
        let mut now = index;
        proof {
            lemma_order();
            assert forall|j: nat| j < a.node_count() implies #[trigger] self.sign_map(j)
                == a.marked_upto(index as nat, now as nat, n, j) by {
                if in_subtree(j, index as nat) && in_subtree(index as nat, j) {
                    lemma_subtree_ge(j, index as nat);
                    lemma_subtree_ge(index as nat, j);
                }
            }
        }
        while now > 0
            invariant
                self.nodes_wf(),
                self.node_count() == a.node_count(),
                now <= index < a.node_count(),
                in_subtree(index as nat, now as nat),
                forall|i: nat| i < a.node_count() ==> #[trigger] self.entry_at(i) == a.entry_at(i),
                forall|j: nat|
                    j < a.node_count() ==> #[trigger] self.sign_map(j) == a.marked_upto(
                        index as nat,
                        now as nat,
                        n,
                        j,
                    ),
                self.next_id() == a.next_id(),
                self.recycled() == a.recycled(),
                order() == BitSet::BITS,
                n == entity_key(entity),
            decreases now,
        {
            let parent_index = (now - 1) / BitSet::BITS;
            let subtree_index = (now - 1) % BitSet::BITS;
            let ghost before = *self;
            proof {
                lemma_parent_lt(now as nat);
                assert(parent_index == parent(now as nat));
                assert(subtree_index == slot(now as nat));
                assert(self.components@[parent_index as int].wf());
            }
            self.components[parent_index].insert_sign(entity, subtree_index);
            proof {
                let p = parent_index as nat;
                assert forall|i: int| 0 <= i < self.components@.len() implies #[trigger] self.components@[i].wf() by {
                    if i != p {
                        assert(self.components@[i] == before.components@[i]);
                    }
                }
                assert forall|i: nat| i < a.node_count() implies #[trigger] self.entry_at(i) == a.entry_at(i) by {
                    if i != p {
                        assert(self.components@[i as int] == before.components@[i as int]);
                    }
                    assert(before.entry_at(i) == a.entry_at(i));
                }
                assert(in_subtree(p, p));
                assert(in_subtree(now as nat, p));
                lemma_subtree_trans(index as nat, now as nat, p);
                assert forall|j: nat| j < a.node_count() implies #[trigger] self.sign_map(j)
                    == a.marked_upto(index as nat, p, n, j) by {
                    assert(before.sign_map(j) == a.marked_upto(index as nat, now as nat, n, j));
                    if j == p {
                        if in_subtree(p, now as nat) {
                            lemma_subtree_ge(p, now as nat);
                        }
                        lemma_toward(index as nat, p, now as nat);
                        assert(before.sign_map(p) == a.sign_map(p));
                        assert(before.components@[p as int].signs(n) == before.signs(p, n));
                        assert(self.components@[p as int].sign_map() == before.components@[p as int].sign_map().insert(
                            n,
                            before.components@[p as int].signs(n).insert(subtree_index as nat),
                        ));
                        assert(in_subtree(index as nat, p) && p != index && in_subtree(p, p));
                    } else {
                        assert(self.components@[j as int] == before.components@[j as int]);
                        if in_subtree(index as nat, j) {
                            lemma_path_step(index as nat, j, now as nat);
                        }
                    }
                }
            }
            now = parent_index;
        }
        proof {
            assert forall|j: nat| j < a.node_count() implies #[trigger] self.sign_map(j) == a.marked(
                index as nat,
                n,
                j,
            ) by {
                lemma_subtree_root(j);
                assert(self.sign_map(j) == a.marked_upto(index as nat, 0, n, j));
            }
            Self::lemma_marked_wf(a, *self, index as nat, n);
        }
    }

    /// `b` differs from `a` at most in the storage of node `index`.
    spec fn replaced_entry(a: Self, b: Self, index: nat) -> bool {
        &&& b.components@.len() == a.components@.len()
        &&& forall|i: int| 0 <= i < a.components@.len() && i != index ==> b.components@[i] == a.components@[i]
        &&& b.components@[index as int].bit_signs == a.components@[index as int].bit_signs
    }

    /// Changing the storage of one node keeps the invariant when the node gains
    /// only holders that its parent already marks.
    proof fn lemma_replaced_entry(a: Self, b: Self, index: nat, gained: Set<nat>)
        requires
            a.wf(),
            index < a.node_count(),
            Self::replaced_entry(a, b, index),
            b.entry_at(index).entry_wf(),
            b.holders(index).subset_of(a.holders(index).union(gained)),
            index > 0 ==> forall|m: nat| #[trigger] gained.contains(m) ==> a.signs(parent(index), m).contains(slot(index)),
        ensures
            b.wf(),
    {
        assert forall|i: int| 0 <= i < b.components@.len() implies #[trigger] b.components@[i].wf() by {
            assert(a.components@[i].wf());
        }
        assert forall|m: nat| #[trigger] b.marked_below(0, m) by {
            assert(a.marked_below(0, m));
            assert forall|i: nat|
                0 < i < b.node_count() && i != 0 && in_subtree(i, 0nat) && #[trigger] b.present(i, m)
                implies b.signs(parent(i), m).contains(slot(i)) by {
                lemma_parent_lt(i);
                let p = parent(i);
                assert(b.sign_map(p) == a.sign_map(p));
                assert(b.sign_map(i) == a.sign_map(i));
                if i != index || !gained.contains(m) || a.holders(index).contains(m) || b.sign_map(i).contains_key(m) {
                    assert(a.present(i, m));
                }
            }
        }
    }

    /// Marks the path from the component's node up to the root for the entity,
    /// and hands out the component's storage, to which the entity may then be
    /// added. The invariant holds again once the storage gains no other holder.
    #[verifier::spinoff_prover]
    pub fn bind_entry(&mut self, entity: E, handle: ComponentHandle) -> (r: &mut S)
        requires
            old(self).wf(),
            handle.spec_index() < old(self).node_count(),
        ensures
            *r == old(self).entry_at(handle.spec_index() as nat),
            final(self).node_count() == old(self).node_count(),
            final(self).entry_at(handle.spec_index() as nat) == *final(r),
            forall|i: nat|
                i < old(self).node_count() && i != handle.spec_index() ==> #[trigger] final(self).entry_at(i)
                    == old(self).entry_at(i),
            forall|j: nat|
                j < old(self).node_count() ==> #[trigger] final(self).sign_map(j) == old(self).marked(
                    handle.spec_index() as nat,
                    entity_key(entity),
                    j,
                ),
            final(self).next_id() == old(self).next_id(),
            final(self).recycled() == old(self).recycled(),
            final(r).entry_wf() && final(r).holders().subset_of(r.holders().insert(entity_key(entity)))
                ==> final(self).wf(),
    {
        let index = handle.index();
        self.mark_path(entity, index);
        proof {
            let mid = *self;
            let n = entity_key(entity);
            assert forall|i: nat| i < old(self).node_count() implies self.components@[i as int].entry
                == old(self).entry_at(i) by {
                assert(self.entry_at(i) == old(self).entry_at(i));
            }
            assert forall|j: nat| j < old(self).node_count() implies self.components@[j as int].sign_map()
                == old(self).marked(index as nat, n, j) by {
                assert(self.sign_map(j) == old(self).marked(index as nat, n, j));
            }
            assert forall|b: Self|
                #![trigger b.wf()]
                Self::replaced_entry(mid, b, index as nat) && b.entry_at(index as nat).entry_wf()
                    && b.holders(index as nat).subset_of(mid.holders(index as nat).insert(n)) implies b.wf() by {
                assert(mid.holders(index as nat).insert(n) =~= mid.holders(index as nat).union(
                    Set::empty().insert(n),
                ));
                Self::lemma_replaced_entry(mid, b, index as nat, Set::empty().insert(n));
            }
        }
        &mut self.components[index].entry
    }

    /// Hands out the storage of a registered component. The invariant holds
    /// again once the storage gains no holder.
    pub fn entry_mut(&mut self, handle: ComponentHandle) -> (r: &mut S)
        requires
            old(self).wf(),
            handle.spec_index() < old(self).node_count(),
        ensures
            *r == old(self).entry_at(handle.spec_index() as nat),
            final(self).node_count() == old(self).node_count(),
            final(self).entry_at(handle.spec_index() as nat) == *final(r),
            forall|i: nat|
                i < old(self).node_count() && i != handle.spec_index() ==> #[trigger] final(self).entry_at(i)
                    == old(self).entry_at(i),
            forall|j: nat| j < old(self).node_count() ==> #[trigger] final(self).sign_map(j) == old(self).sign_map(j),
            final(self).next_id() == old(self).next_id(),
            final(self).recycled() == old(self).recycled(),
            final(r).entry_wf() && final(r).holders().subset_of(r.holders()) ==> final(self).wf(),
    {
        let index = handle.index();
        proof {
            let mid = *self;
            assert forall|b: Self|
                #![trigger b.wf()]
                Self::replaced_entry(mid, b, index as nat) && b.entry_at(index as nat).entry_wf()
                    && b.holders(index as nat).subset_of(mid.holders(index as nat)) implies b.wf() by {
                assert(mid.holders(index as nat) =~= mid.holders(index as nat).union(Set::empty()));
                Self::lemma_replaced_entry(mid, b, index as nat, Set::empty());
            }
        }
        &mut self.components[index].entry
    }

    /// Below `root`, an entity is present only inside the subtrees of the
    /// children of `root` that `root` marks for it.
    proof fn lemma_reach(w: Self, root: nat, n: nat, i: nat) -> (s: nat)
        requires
            w.marked_below(root, n),
            i < w.node_count(),
            i != root,
            in_subtree(i, root),
            w.present(i, n),
        ensures
            w.signs(root, n).contains(s),
            in_subtree(i, child(root, s)),
        decreases i,
    {
        lemma_parent_lt(i);
        let p = parent(i);
        assert(w.signs(p, n).contains(slot(i)));
        if p == root {
            assert(in_subtree(i, i));
            slot(i)
        } else {
            assert(w.present(p, n));
            assert(in_subtree(p, root));
            let s = Self::lemma_reach(w, root, n, p);
            assert(in_subtree(i, child(root, s)));
            s
        }
    }

    /// Node `i` lies in the subtree of a child of `root` at a position in `done`.
    spec fn covered(root: nat, done: Set<nat>, i: nat) -> bool {
        exists|s: nat| #[trigger] done.contains(s) && in_subtree(i, child(root, s))
    }

    /// Node `i` of `b` is node `i` of `a` without the entity of key `n`.
    spec fn cleared(a: Self, b: Self, i: nat, n: nat) -> bool {
        &&& b.holders(i) == a.holders(i).remove(n)
        &&& b.sign_map(i) == a.sign_map(i).remove(n)
    }

    /// Removes the entity's components from the subtree of node `root`,
    /// following the subtree signs.
    #[verifier::spinoff_prover]
    fn remove_entity_helper(&mut self, entity: E, root: usize)
        requires
            old(self).nodes_wf(),
            old(self).marked_below(root as nat, entity_key(entity)),
        ensures
            final(self).nodes_wf(),
            final(self).node_count() == old(self).node_count(),
            final(self).next_id() == old(self).next_id(),
            final(self).recycled() == old(self).recycled(),
            forall|i: nat|
                i < old(self).node_count() && in_subtree(i, root as nat) ==> #[trigger] Self::cleared(
                    *old(self),
                    *final(self),
                    i,
                    entity_key(entity),
                ),
            forall|i: nat|
                i < old(self).node_count() && !in_subtree(i, root as nat) ==> #[trigger] final(self).components@[i as int]
                    == old(self).components@[i as int],
            forall|i: nat|
                i < old(self).node_count() ==> #[trigger] final(self).entry_at(i) == old(self).entry_at(i) || exists|m: &mut S|
                    mut_ref_current(m) == old(self).entry_at(i) && mut_ref_future(m) == final(self).entry_at(i)
                        && #[trigger] call_ensures(S::remove_without_value, (m, entity), ()),
        decreases (if (root as nat) < old(self).node_count() {
            old(self).node_count() - root
        } else {
            0
        }),
    {
        let ghost a = *self;
        let ghost n = entity_key(entity);
        if root >= self.components.len() {
            proof {
                assert forall|i: nat| i < a.node_count() && in_subtree(i, root as nat) implies #[trigger] Self::cleared(
                    a,
                    *self,
                    i,
                    n,
                ) by {
                    lemma_subtree_ge(i, root as nat);
                }
            }
            return;
        }
        proof {
            assert(self.components@[root as int].wf());
        }
        self.components[root].remove_without_value(entity);
        let subtrees = self.components[root].bit_signs.remove(entity);
        let ghost mid = *self;
        proof {
            lemma_order();
            assert(mid.sign_map(root as nat) =~= a.sign_map(root as nat).remove(n));
            assert(Self::cleared(a, mid, root as nat, n));
            assert forall|i: int| 0 <= i < self.components@.len() implies #[trigger] self.components@[i].wf() by {
                if i != root {
                    assert(self.components@[i] == a.components@[i]);
                }
            }
        }
        match subtrees {
            None => {
                proof {
                    assert forall|i: nat| i < a.node_count() && in_subtree(i, root as nat) implies #[trigger] Self::cleared(
                        a,
                        *self,
                        i,
                        n,
                    ) by {
                        if i != root {
                            assert(self.components@[i as int] == a.components@[i as int]);
                            if a.present(i, n) {
                                let s = Self::lemma_reach(a, root as nat, n, i);
                            }
                            assert(a.holders(i).remove(n) =~= a.holders(i));
                            assert(a.sign_map(i).remove(n) =~= a.sign_map(i));
                        }
                    }
                    assert forall|i: nat| i < a.node_count() && !in_subtree(i, root as nat) implies #[trigger] self.components@[i as int]
                        == a.components@[i as int] by {
                        assert(in_subtree(root as nat, root as nat));
                    }
                }
            },
            Some(subtrees) => {
                let ghost all = subtrees@;
                proof {
                    subtrees.lemma_bounded();
                    assert(all == a.signs(root as nat, n));
                }
                let mut iter = subtrees.iter();
                loop
                    invariant
                        self.nodes_wf(),
                        self.node_count() == a.node_count(),
                        self.next_id() == a.next_id(),
                        self.recycled() == a.recycled(),
                        a.nodes_wf(),
                        a.marked_below(root as nat, n),
                        n == entity_key(entity),
                        root < a.node_count() <= usize::MAX,
                        a == *old(self),
                        order() == BitSet::BITS,
                        all == a.signs(root as nat, n),
                        forall|s: nat| #[trigger] all.contains(s) ==> s < order(),
                        iter@.subset_of(all),
                        self.components@[root as int] == mid.components@[root as int],
                        Self::cleared(a, mid, root as nat, n),
                        forall|i: nat|
                            i < a.node_count() && i != root && Self::covered(root as nat, all.difference(iter@), i)
                                ==> #[trigger] Self::cleared(a, *self, i, n),
                        forall|i: nat|
                            i < a.node_count() && i != root && !Self::covered(root as nat, all.difference(iter@), i)
                                ==> #[trigger] self.components@[i as int] == a.components@[i as int],
                        forall|i: nat|
                            i < a.node_count() ==> #[trigger] self.entry_at(i) == a.entry_at(i) || exists|m: &mut S|
                                mut_ref_current(m) == a.entry_at(i) && mut_ref_future(m) == self.entry_at(i)
                                    && #[trigger] call_ensures(S::remove_without_value, (m, entity), ()),
                    ensures
                        self.nodes_wf(),
                        self.node_count() == a.node_count(),
                        self.next_id() == a.next_id(),
                        self.recycled() == a.recycled(),
                        self.components@[root as int] == mid.components@[root as int],
                        forall|i: nat|
                            i < a.node_count() && i != root && Self::covered(root as nat, all, i)
                                ==> #[trigger] Self::cleared(a, *self, i, n),
                        forall|i: nat|
                            i < a.node_count() && i != root && !Self::covered(root as nat, all, i)
                                ==> #[trigger] self.components@[i as int] == a.components@[i as int],
                        forall|i: nat|
                            i < a.node_count() ==> #[trigger] self.entry_at(i) == a.entry_at(i) || exists|m: &mut S|
                                mut_ref_current(m) == a.entry_at(i) && mut_ref_future(m) == self.entry_at(i)
                                    && #[trigger] call_ensures(S::remove_without_value, (m, entity), ()),
                    decreases iter@.len(),
                {
                    proof {
                        iter.lemma_bounded();
                    }
                    let ghost pre = *self;
                    let ghost rest = iter@;
                    let bit = iter.next();
                    match bit {
                        None => {
                            proof {
                                assert(all.difference(iter@) =~= all);
                            }
                            break;
                        },
                        Some(subtree) => {
                            let ghost c = child(root as nat, subtree as nat);
                            proof {
                                lemma_child(root as nat, subtree as nat);
                                assert(in_subtree(root as nat, root as nat));
                                assert(in_subtree(c, root as nat));
                            }
                            let next = match root.checked_mul(BitSet::BITS) {
                                Some(base) => base.checked_add(subtree + 1),
                                None => None,
                            };
                            match next {
                                Some(next) => {
                                    proof {
                                        assert(next == c);
                                        assert forall|i: nat|
                                            #![trigger pre.present(i, n), in_subtree(i, next as nat)]
                                            0 < i < pre.node_count() && i != next && in_subtree(i, next as nat)
                                                && pre.present(i, n) implies pre.signs(parent(i), n).contains(slot(i)) by {
                                            lemma_parent_lt(i);
                                            lemma_subtree_ge(i, next as nat);
                                            lemma_subtree_trans(i, next as nat, root as nat);
                                            assert(in_subtree(parent(i), next as nat));
                                            lemma_subtree_ge(parent(i), next as nat);
                                            lemma_subtree_trans(parent(i), next as nat, root as nat);
                                            if Self::covered(root as nat, all.difference(rest), i) {
                                                let s2 = choose|s2: nat| #[trigger] all.difference(rest).contains(s2)
                                                    && in_subtree(i, child(root as nat, s2));
                                                lemma_children_disjoint(i, root as nat, s2, subtree as nat);
                                            }
                                            if Self::covered(root as nat, all.difference(rest), parent(i)) {
                                                let s2 = choose|s2: nat| #[trigger] all.difference(rest).contains(s2)
                                                    && in_subtree(parent(i), child(root as nat, s2));
                                                lemma_children_disjoint(parent(i), root as nat, s2, subtree as nat);
                                            }
                                            assert(pre.components@[i as int] == a.components@[i as int]);
                                            assert(pre.components@[parent(i) as int] == a.components@[parent(i) as int]);
                                            assert(a.present(i, n));
                                        }
                                        assert(pre.marked_below(next as nat, n));
                                    }
                                    self.remove_entity_helper(entity, next);
                                },
                                None => {
                                    proof {
                                        assert(c > usize::MAX);
                                        assert forall|i: nat| i < a.node_count() implies !in_subtree(i, c) by {
                                            if in_subtree(i, c) {
                                                lemma_subtree_ge(i, c);
                                            }
                                        }
                                    }
                                },
                            }
                            proof {
                                assert forall|i: nat| i < a.node_count() && in_subtree(i, c) implies #[trigger] Self::cleared(
                                    pre,
                                    *self,
                                    i,
                                    n,
                                ) by {}
                                assert forall|i: nat| i < a.node_count() && !in_subtree(i, c) implies #[trigger] self.components@[i as int]
                                    == pre.components@[i as int] by {}
                            }
                            proof {
                                let done = all.difference(rest);
                                let done2 = all.difference(iter@);
                                assert(done2 =~= done.insert(subtree as nat));
                                assert forall|i: nat|
                                    i < a.node_count() && i != root && Self::covered(root as nat, done2, i)
                                        implies #[trigger] Self::cleared(a, *self, i, n) by {
                                    if in_subtree(i, c) {
                                        if Self::covered(root as nat, done, i) {
                                            let s2 = choose|s2: nat| #[trigger] done.contains(s2)
                                                && in_subtree(i, child(root as nat, s2));
                                            lemma_children_disjoint(i, root as nat, s2, subtree as nat);
                                        }
                                        assert(pre.components@[i as int] == a.components@[i as int]);
                                        assert(Self::cleared(pre, *self, i, n));
                                    } else {
                                        let s2 = choose|s2: nat| #[trigger] done2.contains(s2)
                                            && in_subtree(i, child(root as nat, s2));
                                        assert(done.contains(s2));
                                        assert(Self::covered(root as nat, done, i));
                                        assert(Self::cleared(a, pre, i, n));
                                        assert(self.components@[i as int] == pre.components@[i as int]);
                                    }
                                }
                                assert forall|i: nat|
                                    i < a.node_count() && i != root && !Self::covered(root as nat, done2, i)
                                        implies #[trigger] self.components@[i as int] == a.components@[i as int] by {
                                    assert(!in_subtree(i, c)) by {
                                        if in_subtree(i, c) {
                                            assert(done2.contains(subtree as nat));
                                        }
                                    }
                                    if Self::covered(root as nat, done, i) {
                                        let s2 = choose|s2: nat| #[trigger] done.contains(s2)
                                            && in_subtree(i, child(root as nat, s2));
                                        assert(done2.contains(s2));
                                    }
                                    assert(pre.components@[i as int] == a.components@[i as int]);
                                }
                                assert(!in_subtree(root as nat, c)) by {
                                    if in_subtree(root as nat, c) {
                                        lemma_subtree_ge(root as nat, c);
                                    }
                                }
                                assert(iter@.len() < rest.len()) by {
                                    vstd::set_lib::lemma_len_subset(iter@, rest);
                                }
                                assert forall|i: nat| i < a.node_count() implies #[trigger] self.entry_at(i) == a.entry_at(i)
                                    || exists|m: &mut S|
                                    mut_ref_current(m) == a.entry_at(i) && mut_ref_future(m) == self.entry_at(i)
                                        && #[trigger] call_ensures(S::remove_without_value, (m, entity), ()) by {
                                    if in_subtree(i, c) {
                                        if Self::covered(root as nat, done, i) {
                                            let s2 = choose|s2: nat| #[trigger] done.contains(s2)
                                                && in_subtree(i, child(root as nat, s2));
                                            lemma_children_disjoint(i, root as nat, s2, subtree as nat);
                                        }
                                        assert(pre.entry_at(i) == a.entry_at(i));
                                    } else {
                                        assert(self.entry_at(i) == pre.entry_at(i));
                                    }
                                }
                            }
                        },
                    }
                }
                proof {
                    assert forall|i: nat| i < a.node_count() && in_subtree(i, root as nat) implies #[trigger] Self::cleared(
                        a,
                        *self,
                        i,
                        n,
                    ) by {
                        if i != root && !Self::covered(root as nat, all, i) {
                            assert(self.components@[i as int] == a.components@[i as int]);
                            if a.present(i, n) {
                                let s = Self::lemma_reach(a, root as nat, n, i);
                                assert(all.contains(s));
                            }
                            assert(a.holders(i).remove(n) =~= a.holders(i));
                            assert(a.sign_map(i).remove(n) =~= a.sign_map(i));
                        }
                    }
                    assert forall|i: nat| i < a.node_count() && !in_subtree(i, root as nat) implies #[trigger] self.components@[i as int]
                        == a.components@[i as int] by {
                        assert(in_subtree(root as nat, root as nat));
                        if Self::covered(root as nat, all, i) {
                            let s2 = choose|s2: nat| #[trigger] all.contains(s2)
                                && in_subtree(i, child(root as nat, s2));
                            lemma_child(root as nat, s2);
                            assert(in_subtree(child(root as nat, s2), root as nat));
                            lemma_subtree_trans(i, child(root as nat, s2), root as nat);
                        }
                    }
                }
            },
        }
    }

    /// Removes an entity: it no longer holds any component, and its identifier
    /// will be handed out again with a later version. Each storage is either
    /// left as it was or is what its own `remove_without_value` for the entity
    /// leaves of it.
    #[verifier::spinoff_prover]
    pub fn remove_entity(&mut self, entity: E)
        requires
            old(self).wf(),
        ensures
            final(self).wf(),
            final(self).node_count() == old(self).node_count(),
            final(self).recycled() == old(self).recycled().push(entity),
            final(self).next_id() == old(self).next_id(),
            forall|i: nat|
                i < old(self).node_count() ==> #[trigger] final(self).holders(i) == old(self).holders(
                    i,
                ).remove(entity_key(entity)) && final(self).sign_map(i) == old(self).sign_map(i).remove(
                    entity_key(entity),
                ),
            forall|i: nat|
                i < old(self).node_count() ==> #[trigger] final(self).entry_at(i) == old(self).entry_at(i) || exists|m: &mut S|
                    mut_ref_current(m) == old(self).entry_at(i) && mut_ref_future(m) == final(self).entry_at(i)
                        && #[trigger] call_ensures(S::remove_without_value, (m, entity), ()),
    {
        let ghost n = entity_key(entity);
        self.removed_entities.push(entity);
        let ghost mid = *self;
        proof {
            assert(old(self).marked_below(0, n));
            assert(mid.marked_below(0, n)) by {
                assert forall|i: nat|
                    #![trigger mid.present(i, n), in_subtree(i, 0nat)]
                    0 < i < mid.node_count() && i != 0 && in_subtree(i, 0nat) && mid.present(i, n)
                    implies mid.signs(parent(i), n).contains(slot(i)) by {
                    assert(old(self).present(i, n));
                }
            }
        }
        self.remove_entity_helper(entity, 0);
        proof {
            assert forall|i: nat| i < mid.node_count() implies #[trigger] Self::cleared(mid, *self, i, n) by {
                lemma_subtree_root(i);
            }
            assert forall|m: nat| #[trigger] self.marked_below(0, m) by {
                assert(old(self).marked_below(0, m));
                assert forall|i: nat|
                    0 < i < self.node_count() && i != 0 && in_subtree(i, 0nat) && #[trigger] self.present(i, m)
                    implies self.signs(parent(i), m).contains(slot(i)) by {
                    lemma_parent_lt(i);
                    assert(Self::cleared(mid, *self, i, n));
                    assert(Self::cleared(mid, *self, parent(i), n));
                    assert(mid.holders(i) == old(self).holders(i));
                    assert(old(self).present(i, m));
                }
            }
            assert forall|i: nat| i < old(self).node_count() implies #[trigger] self.holders(i) == old(self).holders(
                i,
            ).remove(n) && self.sign_map(i) == old(self).sign_map(i).remove(n) by {
                assert(Self::cleared(mid, *self, i, n));
            }
        }
    }

    /// Creates a world with no nodes and no entities.
    pub fn new() -> (r: Self)
        requires
            E::Id::spec_mask() < usize::MAX,
        ensures
            r.wf(),
            r.node_count() == 0,
            r.next_id() == Some(0nat),
            r.recycled() == Seq::<E>::empty(),
    {
        RawWorld { components: Vec::new(), next_entity_id: Some(E::Id::zero()), removed_entities: Vec::new() }
    }

    /// The number of nodes in the tree.
    pub fn count_nodes(&self) -> (r: usize)
        ensures
            r == self.node_count(),
    {
        self.components.len()
    }

    /// Appends a node for an empty storage, and returns its handle: the next
    /// registration index.
    pub fn push_node(&mut self, entry: S) -> (r: ComponentHandle)
        requires
            old(self).wf(),
            entry.entry_wf(),
            entry.holders().is_empty(),
        ensures
            r.spec_index() == old(self).node_count(),
            final(self).wf(),
            final(self).node_count() == old(self).node_count() + 1,
            final(self).entry_at(old(self).node_count()) == entry,
            final(self).sign_map(old(self).node_count()) == Map::<nat, Set<nat>>::empty(),
            forall|i: nat|
                i < old(self).node_count() ==> #[trigger] final(self).entry_at(i) == old(self).entry_at(i)
                    && final(self).sign_map(i) == old(self).sign_map(i),
            final(self).next_id() == old(self).next_id(),
            final(self).recycled() == old(self).recycled(),
    {
        let index = self.components.len();
        let node = ComponentNode::new(entry);
        proof {
            assert(node.sign_map() =~= Map::<nat, Set<nat>>::empty());
        }
        self.components.push(node);
        proof {
            let k = old(self).components@.len();
            assert(self.components@[k as int] == node);
            assert forall|n: nat| #[trigger] self.marked_below(0, n) by {
                assert forall|i: nat|
                    0 < i < self.node_count() && i != 0 && in_subtree(i, 0nat) && #[trigger] self.present(i, n)
                    implies self.signs(parent(i), n).contains(slot(i)) by {
                    lemma_parent_lt(i);
                    assert(i < k);
                    assert(old(self).marked_below(0, n));
                    assert(old(self).present(i, n));
                    assert(self.components@[parent(i) as int] == old(self).components@[parent(i) as int]);
                }
            }
            assert forall|i: nat| i < old(self).node_count() implies #[trigger] self.entry_at(i)
                == old(self).entry_at(i) && self.sign_map(i) == old(self).sign_map(i) by {
                assert(self.components@[i as int] == old(self).components@[i as int]);
            }
        }
        ComponentHandle::new(index)
    }

    /// Hands out an entity: the most recently removed one with its next
    /// version, or else a fresh identifier with the first version, or `None`
    /// when all identifiers have been handed out.
    pub fn new_entity(&mut self) -> (r: Option<E>)
        requires
            old(self).wf(),
        ensures
            final(self).wf(),
            final(self).node_count() == old(self).node_count(),
            forall|i: nat| #[trigger] final(self).entry_at(i) == old(self).entry_at(i),
            forall|i: nat| #[trigger] final(self).sign_map(i) == old(self).sign_map(i),
            old(self).recycled().len() > 0 ==> {
                &&& r is Some
                &&& r->0.spec_id() == old(self).recycled().last().spec_id()
                &&& r->0.spec_ver().spec_value() == next_version(
                    old(self).recycled().last().spec_ver().spec_value(),
                    E::Ver::spec_max(),
                )
                &&& final(self).recycled() == old(self).recycled().drop_last()
                &&& final(self).next_id() == old(self).next_id()
            },
            old(self).recycled().len() == 0 ==> final(self).recycled() == old(self).recycled(),
            old(self).recycled().len() == 0 && old(self).next_id() is None ==> {
                &&& r is None
                &&& final(self).next_id() == old(self).next_id()
            },
            old(self).recycled().len() == 0 && old(self).next_id() is Some ==> {
                &&& r is Some
                &&& r->0.spec_id().spec_index() == old(self).next_id()->0
                &&& r->0.spec_ver().spec_value() == 1
                &&& final(self).next_id() == (if old(self).next_id()->0 < E::Id::spec_mask() {
                    Some(old(self).next_id()->0 + 1)
                } else {
                    None
                })
            },
    {
        if let Some(entity) = self.removed_entities.pop() {
            proof {
                Self::lemma_same_nodes(*old(self), *self);
            }
            return Some(entity.next_ver());
        }
        match self.next_entity_id {
            Some(now) => {
                let entity = E::new(now);
                self.next_entity_id = now.next();
                proof {
                    Self::lemma_same_nodes(*old(self), *self);
                }
                Some(entity)
            },
            None => {
                proof {
                    Self::lemma_same_nodes(*old(self), *self);
                }
                None
            },
        }
    }

    /// The storage of a registered component type.
    pub fn entry(&self, handle: ComponentHandle) -> (r: &S)
        requires
            handle.spec_index() < self.node_count(),
        ensures
            *r == self.entry_at(handle.spec_index() as nat),
    {
        &self.components[handle.index()].entry
    }

    /// The number of entities holding a registered component.
    pub fn len(&self, handle: ComponentHandle) -> (r: usize)
        requires
            self.wf(),
            handle.spec_index() < self.node_count(),
        ensures
            r == self.holders(handle.spec_index() as nat).len(),
    {
        let node = &self.components[handle.index()];
        proof {
            assert(node.wf());
        }
        node.len()
    }
}

impl<S: ComponentEntry<Entity16>> Default for RawWorld<Entity16, S> {
    /// A world with no nodes and no entities.
    fn default() -> (r: Self)
        ensures
            r.wf(),
            r.node_count() == 0,
            r.next_id() == Some(0nat),
            r.recycled() == Seq::<Entity16>::empty(),
    {
        Self::new()
    }
}

impl<S: ComponentEntry<Entity32>> Default for RawWorld<Entity32, S> {
    /// A world with no nodes and no entities.
    fn default() -> (r: Self)
        ensures
            r.wf(),
            r.node_count() == 0,
            r.next_id() == Some(0nat),
            r.recycled() == Seq::<Entity32>::empty(),
    {
        Self::new()
    }
}

/// Removing an entity from a world of component storages discards only that
/// entity's pairs: each storage afterwards holds exactly the pairs it held
/// before but for the removed entity's key, so every other entity keeps its
/// own value.
pub proof fn law_remove_entity_keeps_other_pairs<E: EntityInternal, T>(
    w: &mut RawWorld<E, ComponentStorage<E, T>>,
    entity: E,
    i: nat,
)
    requires
        i < mut_ref_current(w).node_count(),
        call_ensures(RawWorld::<E, ComponentStorage<E, T>>::remove_entity, (w, entity), ()),
    ensures
        mut_ref_future(w).entry_at(i)@ == mut_ref_current(w).entry_at(i)@.remove(entity_key(entity)),
{
    let before = mut_ref_current(w).entry_at(i);
    let after = mut_ref_future(w).entry_at(i);
    before.lemma_entry();
    after.lemma_entry();
    if after == before {
        assert(mut_ref_future(w).holders(i) == mut_ref_current(w).holders(i).remove(entity_key(entity)));
        assert(after@ =~= before@.remove(entity_key(entity)));
    }
}

/// The bookkeeping of a world of 16-bit entities with type-erased storages.
pub type RawWorld16 = RawWorld<Entity16, Box<dyn ComponentEntry<Entity16>>>;

/// The bookkeeping of a world of 32-bit entities with type-erased storages.
pub type RawWorld32 = RawWorld<Entity32, Box<dyn ComponentEntry<Entity32>>>;

/// The bookkeeping of a world of 64-bit entities with type-erased storages.
pub type RawWorld64 = RawWorld<Entity64, Box<dyn ComponentEntry<Entity64>>>;

} // verus!
