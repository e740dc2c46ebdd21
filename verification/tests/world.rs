use std::collections::HashSet;

use rentt::component::{ComponentEntry, ComponentHandle, ComponentRegistry, ComponentStorage};
use rentt::entity::{Entity, Entity16, Entity32, EntityInternal};
use rentt::entity_fields::{EntityId, EntityVer};
use rentt::world::{RawWorld, RawWorld16, RawWorld32};

#[derive(Debug, Clone, Copy, PartialEq, Eq, Hash)]
struct Position(i32, i32);

#[test]
fn test_entity_creation_and_removal() {
    let mut world = RawWorld32::new();
    let entity = world.new_entity().expect("Failed to create entity");
    world.remove_entity(entity);
    let recyled_entity = world.new_entity().unwrap();
    assert_ne!(entity, recyled_entity);
    assert_eq!(entity.id(), recyled_entity.id());
    assert_ne!(entity.ver(), recyled_entity.ver());
}

#[test]
fn test_raw_world_insert_and_remove() {
    let mut world = RawWorld::<Entity32, ComponentStorage<Entity32, i32>>::new();
    let handle = world.push_node(ComponentStorage::new());

    let entity = world.new_entity().unwrap();

    let old_value = world.bind_entry(entity, handle).insert(entity, 42);
    assert!(old_value.is_none());

    let removed_value = world.entry_mut(handle).remove(entity);
    assert_eq!(removed_value, Some(42));

    world.remove_entity(entity);

    let recycled = world.new_entity().unwrap();
    assert_eq!(recycled.id(), entity.id());
    assert_ne!(recycled.ver(), entity.ver());
}

#[test]
fn test_multiple_components_and_entities() {
    let mut world = RawWorld::<Entity32, ComponentStorage<Entity32, u64>>::new();
    let handle_a = world.push_node(ComponentStorage::new());
    let handle_b = world.push_node(ComponentStorage::new());

    let entity1 = world.new_entity().unwrap();
    let entity2 = world.new_entity().unwrap();

    let old_a1 = world.bind_entry(entity1, handle_a).insert(entity1, 100);
    assert!(old_a1.is_none());

    let old_b2 = world.bind_entry(entity2, handle_b).insert(entity2, 200);
    assert!(old_b2.is_none());

    let removed_a1 = world.entry_mut(handle_a).remove(entity1);
    assert_eq!(removed_a1, Some(100));

    let removed_b2 = world.entry_mut(handle_b).remove(entity2);
    assert_eq!(removed_b2, Some(200));
}

#[test]
fn test_raw_world_deep_tree_stress() {
    let component_count: usize = 1024;
    let mut world = RawWorld::<Entity32, ComponentStorage<Entity32, usize>>::new();

    let mut handles = Vec::new();
    for _ in 0..component_count {
        handles.push(world.push_node(ComponentStorage::new()));
    }

    let entities: Vec<_> = (0..10).map(|_| world.new_entity().unwrap()).collect();

    for &entity in &entities {
        for (comp_id, handle) in handles.iter().enumerate() {
            let old = world.bind_entry(entity, *handle).insert(entity, comp_id);
            assert!(old.is_none());
        }
    }

    for &entity in &entities {
        for (comp_id, handle) in handles.iter().enumerate() {
            let removed_value = world.entry_mut(*handle).remove(entity);
            assert_eq!(removed_value, Some(comp_id));
        }
    }

    for &entity in &entities {
        world.remove_entity(entity);
    }

    for _ in 0..entities.len() {
        let recycled = world.new_entity().unwrap();
        assert!(entities.iter().any(|&e| e.id() == recycled.id()));
        assert!(entities.iter().all(|&e| e.ver() != recycled.ver()));
    }
}

fn position_world() -> (RawWorld<Entity32, ComponentStorage<Entity32, Position>>, ComponentHandle) {
    let mut world = RawWorld::<Entity32, ComponentStorage<Entity32, Position>>::new();
    let handle = world.push_node(ComponentStorage::new());
    (world, handle)
}

#[test]
fn test_bind_and_unbind_component() {
    let (mut world, handle) = position_world();
    let entity = world.new_entity().expect("Failed to create entity");

    let old = world.bind_entry(entity, handle).insert(entity, Position(10, 20));
    assert!(old.is_none());

    let replaced = world.bind_entry(entity, handle).insert(entity, Position(30, 40));
    assert_eq!(replaced, Some(Position(10, 20)));

    let removed = world.entry_mut(handle).remove(entity);
    assert_eq!(removed, Some(Position(30, 40)));

    let removed_again = world.entry_mut(handle).remove(entity);
    assert!(removed_again.is_none());
}

#[test]
fn world_test_iter() {
    let (mut world, handle) = position_world();

    let position_count: usize = 1024;
    let mut expected = HashSet::new();
    for i in 0..position_count {
        let entity = world.new_entity().unwrap();
        let pos = Position(i as i32, (i * 2) as i32);
        world.bind_entry(entity, handle).insert(entity, pos);
        expected.insert((entity, pos));
    }
    assert_eq!(world.len(handle), position_count);

    let result: HashSet<_> = world.entry(handle).iter().into_iter().map(|(e, p)| (e, *p)).collect();

    assert_eq!(expected, result);
}

#[test]
fn world_test_iter_mut() {
    let (mut world, handle) = position_world();

    let position_count: usize = 1024;
    let mut initial = HashSet::new();
    for i in 0..position_count {
        let entity = world.new_entity().unwrap();
        let pos = Position(i as i32, (i * 2) as i32);
        world.bind_entry(entity, handle).insert(entity, pos);
        initial.insert((entity, pos));
    }
    assert_eq!(world.len(handle), position_count);

    let mut it = world.entry_mut(handle).iter_mut();
    while let Some((_entity, pos)) = it.next() {
        pos.0 += 1;
        pos.1 += 1;
    }

    let expected: HashSet<_> = initial
        .into_iter()
        .map(|(e, Position(x, y))| (e, Position(x + 1, y + 1)))
        .collect();

    let result: HashSet<_> = world.entry(handle).iter().into_iter().map(|(e, p)| (e, *p)).collect();

    assert_eq!(expected, result);
}

#[test]
fn remove_entity_clears_every_storage() {
    let mut world = RawWorld::<Entity32, ComponentStorage<Entity32, usize>>::new();
    let mut handles = Vec::new();
    for _ in 0..200 {
        handles.push(world.push_node(ComponentStorage::new()));
    }
    let keep = world.new_entity().unwrap();
    let gone = world.new_entity().unwrap();
    for &i in &[0usize, 1, 64, 65, 130, 199] {
        world.bind_entry(gone, handles[i]).insert(gone, i);
        world.bind_entry(keep, handles[i]).insert(keep, i + 1000);
    }
    world.remove_entity(gone);
    for (i, handle) in handles.iter().enumerate() {
        assert_eq!(world.entry(*handle).get(gone), None);
        let expected = if [0usize, 1, 64, 65, 130, 199].contains(&i) { Some(&(i + 1000)) } else { None };
        assert_eq!(world.entry(*handle).get(keep), expected);
    }
    assert_eq!(world.len(handles[199]), 1);
    let again = world.new_entity().unwrap();
    assert_eq!(again.id(), gone.id());
    assert_eq!(again.ver().get(), 2);
}

#[test]
fn fresh_identifiers_count_up_and_run_out() {
    let mut world = RawWorld16::new();
    for n in 0..0x1000u16 {
        let e = world.new_entity().unwrap();
        assert_eq!(e.id().get(), n);
        assert_eq!(e.ver().get(), 1);
    }
    assert!(world.new_entity().is_none());
    let e = Entity16::new(rentt::entity_fields::Id12::new(5).unwrap());
    world.remove_entity(e);
    let again = world.new_entity().unwrap();
    assert_eq!(again.id().get(), 5);
    assert_eq!(again.ver().get(), 2);
    assert!(world.new_entity().is_none());
}

#[test]
fn recycling_hands_out_the_last_removed_first() {
    let mut world = RawWorld32::new();
    let a = world.new_entity().unwrap();
    let b = world.new_entity().unwrap();
    world.remove_entity(a);
    world.remove_entity(b);
    assert_eq!(world.new_entity().unwrap().id(), b.id());
    assert_eq!(world.new_entity().unwrap().id(), a.id());
    assert_eq!(world.new_entity().unwrap().id().get(), 2);
}

#[test]
fn boxed_storages_are_cleared_by_remove_entity() {
    let mut world = RawWorld32::new();
    let first = world.push_node(Box::new(ComponentStorage::<Entity32, i32>::new()));
    let second = world.push_node(Box::new(ComponentStorage::<Entity32, u64>::new()));
    assert_eq!(first.index(), 0);
    assert_eq!(second.index(), 1);
    assert_eq!(ComponentHandle::new(7).index(), 7);
    let e = world.new_entity().unwrap();
    assert_eq!(world.len(first), 0);
    assert_eq!(world.entry(second).len(), 0);
    world.remove_entity(e);
    assert_eq!(world.count_nodes(), 2);
    assert_eq!(world.new_entity().unwrap().id(), e.id());
}

#[test]
fn storage_insert_without_value_and_remove_without_value() {
    let mut storage = ComponentStorage::<Entity32, &str>::new();
    let mut world = RawWorld32::new();
    let a = world.new_entity().unwrap();
    let b = world.new_entity().unwrap();
    storage.insert_without_value(a, "a");
    storage.insert_without_value(b, "b");
    storage.insert_without_value(a, "A");
    assert_eq!(storage.get(a), Some(&"A"));
    assert_eq!(ComponentEntry::len(&storage), 2);
    storage.remove_without_value(a);
    assert_eq!(storage.get(a), None);
    assert_eq!(storage.get(b), Some(&"b"));
    assert_eq!(ComponentEntry::len(&storage), 1);
}

#[test]
fn default_world_is_empty() {
    let mut world: RawWorld32 = Default::default();
    assert_eq!(world.count_nodes(), 0);
    assert_eq!(world.new_entity().unwrap().id().get(), 0);
    let mut small: RawWorld16 = Default::default();
    assert_eq!(small.new_entity().unwrap().ver().get(), 1);
}

#[test]
fn registry_hands_out_registration_indices() {
    let mut registry = ComponentRegistry::<&str>::new();
    assert_eq!(registry.register("a").index(), 0);
    assert_eq!(registry.register("b").index(), 1);
    assert_eq!(registry.len(), 2);
    assert_eq!(registry.get(1), Some(&"b"));
    assert_eq!(registry.get(2), None);
    registry.clear();
    assert_eq!(registry.len(), 0);
    assert_eq!(registry.register("c").index(), 0);
}
