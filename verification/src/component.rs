//! Component storage.
//!
//! Each component type gets a `ComponentStorage`, a map from entities to
//! values. The world manages storages of different types through the
//! `ComponentEntry` interface, which needs no knowledge of the value type.

use vstd::prelude::*;
use crate::entity::Entity;
use crate::entity_fields::EntityId;
use crate::entity_map::{EntityMap, IterMut};

verus! {

/// The number an entity is stored under: its identifier as a number.
pub open spec fn entity_key<E: Entity>(entity: E) -> nat {
    entity.spec_id().spec_index()
}

/// The interface of a component storage that does not depend on the value type.
pub trait ComponentEntry<E: Entity> {
    /// The keys (see `entity_key`) of the entities holding the component.
    spec fn holders(&self) -> Set<nat>;

    /// The storage's internal invariant.
    spec fn entry_wf(&self) -> bool;

    /// Returns the number of entities currently holding this component.
    fn len(&self) -> (r: usize)
        requires
            self.entry_wf(),
        ensures
            self.holders().finite(),
            r == self.holders().len(),
    ;

    /// Removes the component of the entity's identifier, discarding it.
    fn remove_without_value(&mut self, entity: E)
        requires
            old(self).entry_wf(),
        ensures
            final(self).entry_wf(),
            final(self).holders() == old(self).holders().remove(entity_key(entity)),
    ;
}

/// The storage of one component type `T`: a map from entities to values.
pub struct ComponentStorage<E: Entity, T> {
    storage: EntityMap<E, T>,
}

impl<E: Entity, T> View for ComponentStorage<E, T> {
    type V = Map<nat, (E, T)>;

    /// The stored `(entity, value)` pairs, by entity key.
    closed spec fn view(&self) -> Map<nat, (E, T)> {
        self.storage@
    }
}

impl<E: Entity, T> ComponentStorage<E, T> {
    /// The storage's internal invariant.
    pub closed spec fn wf(&self) -> bool {
        self.storage.wf()
    }

    /// The pairs in the order `iter` hands them out.
    pub closed spec fn listing(&self) -> Seq<(E, T)> {
        self.storage.listing()
    }

    /// Every stored pair holds an entity whose key is the pair's key, and the
    /// listing holds each stored pair exactly once.
    pub proof fn lemma_listing(&self)
        requires
            self.wf(),
        ensures
            self@.dom().finite(),
            forall|n: nat| #[trigger] self@.contains_key(n) ==> entity_key(self@[n].0) == n,
            self.listing().len() == self@.len(),
            forall|i: int|
                0 <= i < self.listing().len() ==> #[trigger] self@.contains_key(
                    entity_key(self.listing()[i].0),
                ) && self@[entity_key(self.listing()[i].0)] == self.listing()[i],
            forall|i: int, j: int|
                0 <= i < j < self.listing().len() ==> entity_key(#[trigger] self.listing()[i].0)
                    != entity_key(#[trigger] self.listing()[j].0),
    {
        self.storage.lemma_keys();
        self.storage.lemma_listing();
        assert forall|i: int| 0 <= i < self.listing().len() implies #[trigger] self@.contains_key(
            entity_key(self.listing()[i].0),
        ) && self@[entity_key(self.listing()[i].0)] == self.listing()[i] by {
            assert(self.storage@.contains_key(EntityMap::<E, T>::key(self.storage.listing()[i].0)));
        }
    }

    /// Creates an empty storage.
    pub fn new() -> (r: Self)
        requires
            E::Id::spec_mask() < usize::MAX,
        ensures
            r.wf(),
            r@ == Map::<nat, (E, T)>::empty(),
    {
        ComponentStorage { storage: EntityMap::new() }
    }

    /// Stores `value` for the entity, returning the value it replaces.
    pub fn insert(&mut self, entity: E, value: T) -> (r: Option<T>)
        requires
            old(self).wf(),
        ensures
            final(self).wf(),
            final(self)@ == old(self)@.insert(entity_key(entity), (entity, value)),
            r == (if old(self)@.contains_key(entity_key(entity)) {
                Some(old(self)@[entity_key(entity)].1)
            } else {
                None
            }),
    {
        self.storage.insert(entity, value)
    }

    /// Stores `value` for the entity, discarding the value it replaces.
    pub fn insert_without_value(&mut self, entity: E, value: T)
        requires
            old(self).wf(),
        ensures
            final(self).wf(),
            final(self)@ == old(self)@.insert(entity_key(entity), (entity, value)),
    {
        let _ = self.storage.insert(entity, value);
    }

    /// Removes the entity's value and returns it.
    pub fn remove(&mut self, entity: E) -> (r: Option<T>)
        requires
            old(self).wf(),
        ensures
            final(self).wf(),
            final(self)@ == old(self)@.remove(entity_key(entity)),
            r == (if old(self)@.contains_key(entity_key(entity)) {
                Some(old(self)@[entity_key(entity)].1)
            } else {
                None
            }),
    {
        self.storage.remove(entity)
    }

    /// The entity's value, if it has one.
    pub fn get(&self, entity: E) -> (r: Option<&T>)
        requires
            self.wf(),
        ensures
            r == (if self@.contains_key(entity_key(entity)) {
                Some(&self@[entity_key(entity)].1)
            } else {
                None
            }),
    {
        self.storage.get(entity)
    }

    /// All `(entity, value)` pairs, in the order of `listing`.
    pub fn iter(&self) -> (r: Vec<(E, &T)>)
        requires
            self.wf(),
        ensures
            r@.len() == self.listing().len(),
            forall|i: int| 0 <= i < r@.len() ==> (r@[i].0, *r@[i].1) == #[trigger] self.listing()[i],
    {
        self.storage.iter()
    }

    /// Mutable iteration over all `(entity, value)` pairs, in the order of `listing`.
    pub fn iter_mut(&mut self) -> (r: IterMut<'_, E, T>)
        requires
            old(self).wf(),
        ensures
            r.valid(),
            r.target()@ == old(self)@,
            r.target().listing() == old(self).listing(),
            r.position() == 0,
            final(self)@ == (*final(r.map_ref()))@,
            final(self).listing() == (*final(r.map_ref())).listing(),
            final(self).wf() == (*final(r.map_ref())).wf(),
    {
        self.storage.iter_mut()
    }
}

impl<E: Entity, T> ComponentEntry<E> for ComponentStorage<E, T> {
    closed spec fn holders(&self) -> Set<nat> {
        self.storage@.dom()
    }

    closed spec fn entry_wf(&self) -> bool {
        self.storage.wf()
    }

    fn len(&self) -> (r: usize) {
        proof {
            self.storage.lemma_keys();
        }
        self.storage.len()
    }

    /// Removes the entity's pair and keeps every other pair as it was.
    fn remove_without_value(&mut self, entity: E)
        ensures
            final(self)@ == old(self)@.remove(entity_key(entity)),
            final(self).wf(),
    {
        let _ = self.storage.remove(entity);
    }
}

impl<E: Entity, T> ComponentStorage<E, T> {
    /// Removing an entity's component discards only that entity's pair: the
    /// storage afterwards holds exactly the old pairs without the entity's key,
    /// so every other entity keeps its own `(entity, value)` pair and the
    /// removed entity holds nothing.
    pub proof fn law_remove_without_value_keeps_other_pairs(m: &mut Self, entity: E, other: nat)
        requires
            call_ensures(Self::remove_without_value, (m, entity), ()),
        ensures
            mut_ref_future(m)@ == mut_ref_current(m)@.remove(entity_key(entity)),
            !mut_ref_future(m)@.contains_key(entity_key(entity)),
            other != entity_key(entity) ==> mut_ref_future(m)@.contains_key(other)
                == mut_ref_current(m)@.contains_key(other),
            other != entity_key(entity) && mut_ref_current(m)@.contains_key(other)
                ==> mut_ref_future(m)@[other] == mut_ref_current(m)@[other],
    {
    }

    /// The holders of the component are the keys of the stored pairs, and the
    /// entry invariant is the storage invariant.
    pub proof fn lemma_entry(&self)
        ensures
            self.holders() == self@.dom(),
            self.entry_wf() == self.wf(),
    {
    }
}

impl<E: Entity> ComponentEntry<E> for Box<dyn ComponentEntry<E>> {
    open spec fn holders(&self) -> Set<nat> {
        (**self).holders()
    }

    open spec fn entry_wf(&self) -> bool {
        (**self).entry_wf()
    }

    fn len(&self) -> (r: usize) {
        (**self).len()
    }

    fn remove_without_value(&mut self, entity: E) {
        (**self).remove_without_value(entity)
    }
}

/// Handle identifying a registered component type: its registration index.
#[derive(Debug, Clone, Copy, PartialEq, Eq, Structural)]
pub struct ComponentHandle {
    index: usize,
}

impl ComponentHandle {
    /// The registration index.
    pub closed spec fn spec_index(&self) -> usize {
        self.index
    }

    /// Creates a handle from a registration index.
    pub fn new(index: usize) -> (r: Self)
        ensures
            r.spec_index() == index,
    {
        ComponentHandle { index }
    }

    /// Returns the registration index, which is the handle's node in the world's tree.
    pub fn index(&self) -> (r: usize)
        ensures
            r == self.spec_index(),
    {
        self.index
    }
}

/// The registered component types, by registration index: for each, what
/// creates its storage.
pub struct ComponentRegistry<C> {
    constructors: Vec<C>,
}

impl<C> View for ComponentRegistry<C> {
    type V = Seq<C>;

    /// The registered constructors, by registration index.
    closed spec fn view(&self) -> Seq<C> {
        self.constructors@
    }
}

impl<C> ComponentRegistry<C> {
    /// Creates an empty registry.
    pub fn new() -> (r: Self)
        ensures
            r@ == Seq::<C>::empty(),
    {
        ComponentRegistry { constructors: Vec::new() }
    }

    /// Registers a constructor and returns the handle of its type: the next
    /// registration index.
    pub fn register(&mut self, constructor: C) -> (r: ComponentHandle)
        ensures
            r.spec_index() == old(self)@.len(),
            final(self)@ == old(self)@.push(constructor),
    {
        let index = self.constructors.len();
        self.constructors.push(constructor);
        ComponentHandle::new(index)
    }

    /// Forgets every registration.
    pub fn clear(&mut self)
        ensures
            final(self)@ == Seq::<C>::empty(),
    {
        self.constructors.clear();
    }

    /// The number of registered types.
    pub fn len(&self) -> (r: usize)
        ensures
            r == self@.len(),
    {
        self.constructors.len()
    }

    /// The constructor registered under `index`, if any.
    pub fn get(&self, index: usize) -> (r: Option<&C>)
        ensures
            r == (if index < self@.len() {
                Some(&self@[index as int])
            } else {
                None
            }),
    {
        if index < self.constructors.len() {
            Some(&self.constructors[index])
        } else {
            None
        }
    }
}

/// A type usable as a component: it remembers the handle it was registered under.
///
/// `set_handle` is called once, when the type is registered with a world, and
/// `handle` must afterwards return that handle.
pub trait Component {
    /// Stores the handle assigned to this component type.
    fn set_handle(handle: ComponentHandle);

    /// The handle assigned to this component type.
    fn handle() -> ComponentHandle;
}

} // verus!
