use rentt::entity::{Entity, Entity32, EntityInternal};
use rentt::entity_fields::{EntityId, Id24};
use rentt::entity_map::{block_size, next_power_of_two, EntityMap, Pool};

fn id(n: u32) -> Id24 {
    Id24::new(n).unwrap()
}

#[test]
fn test_single_insert_remove() {
    let mut pool = Pool::<i32, Id24>::new(10);

    assert_eq!(pool.insert(id(3), 99), None);
    assert_eq!(pool.get(id(3)), Some(&99));
    assert_eq!(pool.remove(id(3)), Some(99));
    assert_eq!(pool.get(id(3)), None);

    assert!(pool.is_empty());
}

#[test]
fn test_multiple_insert_remove() {
    let mut pool = Pool::<i32, Id24>::new(10);

    for i in 0..10 {
        assert_eq!(pool.insert(id(i), i as i32), None);
    }

    for i in 0..10 {
        assert_eq!(pool.get(id(i)), Some(&(i as i32)));
    }

    for i in 0..10 {
        assert_eq!(pool.remove(id(i)), Some(i as i32));
    }

    assert!(pool.is_empty());
}

#[test]
fn test_full_capacity() {
    let mut pool = Pool::<i32, Id24>::new(5);

    for i in 0..5 {
        assert_eq!(pool.insert(id(i), i as i32), None);
    }

    assert!(pool.is_full());
    assert_eq!(pool.len(), 5);
}

#[test]
fn test_mixed_insert_remove() {
    let mut pool = Pool::<i32, Id24>::new(10);

    assert_eq!(pool.insert(id(1), 11), None);
    assert_eq!(pool.insert(id(2), 22), None);
    assert_eq!(pool.remove(id(1)), Some(11));
    assert_eq!(pool.insert(id(3), 33), None);
    assert_eq!(pool.insert(id(2), 222), Some(22));
    assert_eq!(pool.get(id(3)), Some(&33));
    assert_eq!(pool.get(id(2)), Some(&222));
    assert_eq!(pool.get(id(1)), None);
}

#[test]
fn test_is_empty_and_is_full() {
    let mut pool = Pool::<i32, Id24>::new(2);

    assert!(pool.is_empty());
    assert!(!pool.is_full());

    pool.insert(id(0), 10);

    assert!(!pool.is_empty());
    assert!(!pool.is_full());

    pool.insert(id(1), 20);

    assert!(pool.is_full());
}

#[test]
fn test_contains() {
    let mut pool = Pool::<i32, Id24>::new(10);

    assert!(!pool.contains(id(5)));

    pool.insert(id(5), 55);

    assert!(pool.contains(id(5)));

    pool.remove(id(5));

    assert!(!pool.contains(id(5)));
}

#[test]
fn test_iter() {
    let mut pool = Pool::<i32, Id24>::new(5);

    pool.insert(id(0), 100);
    pool.insert(id(1), 200);
    pool.insert(id(2), 300);

    let values: Vec<i32> = pool.iter().into_iter().cloned().collect();
    assert_eq!(values.len(), 3);
    assert!(values.contains(&100));
    assert!(values.contains(&200));
    assert!(values.contains(&300));
}

#[test]
fn pool_contains_beyond_capacity_is_false() {
    let pool = Pool::<i32, Id24>::new(4);
    assert!(!pool.contains(id(4)));
    assert!(!pool.contains(id(1000)));
    assert_eq!(pool.capacity(), 4);
}

#[test]
fn pool_remove_missing_returns_none() {
    let mut pool = Pool::<i32, Id24>::new(4);
    assert_eq!(pool.remove(id(2)), None);
    pool.insert(id(2), 7);
    pool.insert(id(0), 8);
    assert_eq!(pool.remove(id(2)), Some(7));
    assert_eq!(pool.get(id(0)), Some(&8));
    assert_eq!(pool.len(), 1);
}

#[test]
fn pool_get_mut_updates_value() {
    let mut pool = Pool::<i32, Id24>::new(4);
    pool.insert(id(1), 5);
    if let Some(v) = pool.get_mut(id(1)) {
        *v = 50;
    }
    assert!(pool.get_mut(id(2)).is_none());
    assert_eq!(pool.get(id(1)), Some(&50));
}

#[test]
fn entity_map_test_single_insert_remove() {
    let mut map = EntityMap::<Entity32, i32>::new();
    let e = Entity32::new(id(1));

    assert_eq!(map.insert(e, 42), None);
    assert_eq!(map.get(e), Some(&42));
    assert_eq!(map.remove(e), Some(42));
    assert_eq!(map.get(e), None);
}

#[test]
fn entity_map_test_multiple_insert_remove() {
    let mut map = EntityMap::<Entity32, i32>::new();

    for i in 0..10 {
        let e = Entity32::new(id(i));
        assert_eq!(map.insert(e, i as i32), None);
    }

    for i in 0..10 {
        let e = Entity32::new(id(i));
        assert_eq!(map.get(e), Some(&(i as i32)));
        assert_eq!(map.remove(e), Some(i as i32));
    }

    assert!(map.is_empty());
}

#[test]
fn entity_map_test_mixed_insert_remove() {
    let mut map = EntityMap::<Entity32, i32>::new();

    for i in 0..5 {
        let e = Entity32::new(id(i));
        assert_eq!(map.insert(e, i as i32 * 10), None);
    }

    let e2 = Entity32::new(id(2));
    let e4 = Entity32::new(id(4));
    assert_eq!(map.remove(e2), Some(20));
    assert_eq!(map.remove(e4), Some(40));

    let e5 = Entity32::new(id(5));
    assert_eq!(map.insert(e5, 50), None);

    assert_eq!(map.get(e5), Some(&50));
    assert_eq!(map.get(e2), None);
}

#[test]
fn test_contains_len_is_empty() {
    let mut map = EntityMap::<Entity32, i32>::new();
    let e = Entity32::new(id(42));

    assert!(map.is_empty());
    assert_eq!(map.len(), 0);
    assert!(!map.contains(e));

    map.insert(e, 123);
    assert!(map.contains(e));
    assert!(!map.is_empty());
    assert_eq!(map.len(), 1);
}

#[test]
fn entity_map_test_iter() {
    let mut map = EntityMap::<Entity32, i32>::new();

    for i in 0..3 {
        let e = Entity32::new(id(i));
        map.insert(e, i as i32 * 10);
    }

    let mut keys = vec![];
    let mut values = vec![];

    for (k, v) in map.iter() {
        keys.push(k.id().into_index());
        values.push(*v);
    }

    keys.sort();
    values.sort();

    assert_eq!(keys, vec![0, 1, 2]);
    assert_eq!(values, vec![0, 10, 20]);
}

#[test]
fn test_entities() {
    let mut map = EntityMap::<Entity32, i32>::new();
    let ents: Vec<Entity32> = (0..5).map(|i| Entity32::new(id(i))).collect();

    for e in &ents {
        map.insert(*e, e.id().into_index() as i32);
    }

    let mut collected: Vec<Entity32> = map.entities();
    collected.sort_by_key(|e| e.id().into_index());
    assert_eq!(collected, ents);
}

#[test]
fn test_values() {
    let mut map = EntityMap::<Entity32, i32>::new();

    for i in 0..3 {
        map.insert(Entity32::new(id(i)), ((i + 1) * 100) as i32);
    }

    let mut values: Vec<i32> = map.values().into_iter().cloned().collect();
    values.sort();
    assert_eq!(values, vec![100, 200, 300]);
}

#[test]
fn test_values_mut() {
    let mut map = EntityMap::<Entity32, i32>::new();

    for i in 0..3 {
        map.insert(Entity32::new(id(i)), i as i32);
    }

    let mut values_mut = map.values_mut();
    while let Some(v) = values_mut.next() {
        *v += 10;
    }

    let values: Vec<i32> = map.values().into_iter().cloned().collect();
    assert!(values.contains(&10));
    assert!(values.contains(&11));
    assert!(values.contains(&12));
}

const STRIDE: u32 = 1024;

#[test]
fn test_insert_multiple_pools() {
    let mut map = EntityMap::<Entity32, i32>::new();

    for i in 0..5 {
        let ent = Entity32::new(id(i * STRIDE));
        assert_eq!(map.insert(ent, i as i32), None);
    }

    for i in 0..5 {
        let ent = Entity32::new(id(i * STRIDE));
        assert_eq!(map.get(ent), Some(&(i as i32)));
    }

    for i in 0..5 {
        let ent = Entity32::new(id(i * STRIDE));
        assert_eq!(map.remove(ent), Some(i as i32));
        assert_eq!(map.get(ent), None);
    }

    assert!(map.is_empty());
}

#[test]
fn test_mixed_operations_multiple_pools() {
    let mut map = EntityMap::<Entity32, i32>::new();

    let ent_a = Entity32::new(id(0));
    let ent_b = Entity32::new(id(STRIDE));
    let ent_c = Entity32::new(id(STRIDE * 10));
    let ent_d = Entity32::new(id(STRIDE * 100));

    assert_eq!(map.insert(ent_a, 1), None);
    assert_eq!(map.insert(ent_b, 2), None);
    assert_eq!(map.insert(ent_c, 3), None);
    assert_eq!(map.insert(ent_d, 4), None);

    assert_eq!(map.remove(ent_b), Some(2));
    assert_eq!(map.remove(ent_c), Some(3));

    let ent_e = Entity32::new(id(STRIDE * 200));
    assert_eq!(map.insert(ent_e, 5), None);

    assert_eq!(map.get(ent_a), Some(&1));
    assert_eq!(map.get(ent_b), None);
    assert_eq!(map.get(ent_c), None);
    assert_eq!(map.get(ent_d), Some(&4));
    assert_eq!(map.get(ent_e), Some(&5));
}

#[test]
fn test_iter_across_pools() {
    let mut map = EntityMap::<Entity32, i32>::new();

    let entities = [
        Entity32::new(id(0)),
        Entity32::new(id(STRIDE)),
        Entity32::new(id(STRIDE * 5)),
        Entity32::new(id(STRIDE * 10)),
    ];

    for (i, e) in entities.iter().enumerate() {
        map.insert(*e, i as i32 * 10);
    }

    let mut keys: Vec<u32> = map.entities().into_iter().map(|e| e.id().into_index() as u32).collect();
    keys.sort();

    let mut values: Vec<i32> = map.values().into_iter().cloned().collect();
    values.sort();

    assert_eq!(keys, vec![0, STRIDE, STRIDE * 5, STRIDE * 10]);
    assert_eq!(values, vec![0, 10, 20, 30]);
}

#[test]
fn entity_map_insert_replaces_value() {
    let mut map = EntityMap::<Entity32, i32>::new();
    let e = Entity32::new(id(7));
    assert_eq!(map.insert(e, 1), None);
    assert_eq!(map.insert(e, 2), Some(1));
    assert_eq!(map.len(), 1);
    assert_eq!(map.get(e), Some(&2));
    assert_eq!(map.remove(e), Some(2));
    assert_eq!(map.remove(e), None);
    assert_eq!(map.len(), 0);
}

#[test]
fn entity_map_get_mut_and_iter_mut() {
    let mut map = EntityMap::<Entity32, i32>::new();
    let a = Entity32::new(id(1));
    let b = Entity32::new(id(300));
    map.insert(a, 1);
    map.insert(b, 2);
    if let Some(v) = map.get_mut(a) {
        *v = 100;
    }
    assert!(map.get_mut(Entity32::new(id(2))).is_none());
    let mut it = map.iter_mut();
    while let Some((e, v)) = it.next() {
        *v += e.id().get() as i32;
    }
    assert_eq!(map.get(a), Some(&101));
    assert_eq!(map.get(b), Some(&302));
    assert_eq!(*map.get_unchecked(b), 302);
}

#[test]
fn block_size_exact_values() {
    assert_eq!(next_power_of_two(0), 1);
    assert_eq!(next_power_of_two(1), 1);
    assert_eq!(next_power_of_two(5), 8);
    assert_eq!(next_power_of_two(64), 64);
    assert_eq!(block_size(8), 64);
    assert_eq!(block_size(128), 32);
    assert_eq!(block_size(200), 32);
    assert_eq!(block_size(4096), 8);
    assert_eq!(block_size(100000), 8);
}

#[test]
fn entity_map_test_iter_mut() {
    let mut pool = Pool::<i32, Id24>::new(5);

    pool.insert(id(0), 1);
    pool.insert(id(1), 2);
    pool.insert(id(2), 3);

    let mut values_mut = pool.iter_mut();
    while let Some(v) = values_mut.next() {
        *v *= 10;
    }

    let values: Vec<i32> = pool.iter().into_iter().cloned().collect();
    assert!(values.contains(&10));
    assert!(values.contains(&20));
    assert!(values.contains(&30));
}

#[test]
fn next_power_of_two_of_large_values() {
    assert_eq!(next_power_of_two(1 << 20), 1 << 20);
    assert_eq!(next_power_of_two((1 << 20) + 1), 1 << 21);
    assert_eq!(next_power_of_two(usize::MAX / 2 + 1), usize::MAX / 2 + 1);
}
