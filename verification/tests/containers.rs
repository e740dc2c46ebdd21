use rentt::containers::entity_map::{EntityMap, Pool};
use rentt::entity::entity::{Entity, Entity64, EntityOps};

#[test]
fn test_pool_insert_get_remove_once() {
    let mut pool = Pool::<String, u8, 1>::new();
    pool.insert(0, "Hello".to_string());
    assert!(pool.contains(0));
    assert_eq!(pool.get(0), "Hello");
    let value = pool.remove(0);
    assert_eq!(value, "Hello");
    assert!(!pool.contains(0));
}

#[test]
fn test_pool_insert_get_remove_multiple() {
    const N: usize = 1024;

    let mut pool = Pool::<String, usize, N>::new();

    for i in 0..N {
        pool.insert(i, format!("{}", i));
        assert!(pool.contains(i));
        assert_eq!(pool.get(i), &format!("{}", i));
    }

    for i in 0..N {
        let value = pool.remove(i);
        assert!(!pool.contains(i));
        assert_eq!(value, format!("{}", i));
    }
}

#[test]
fn test_empty_pool_iter() {
    let mut pool = Pool::<String, usize, 8>::new();

    let mut cnt = 0;
    let mut it = pool.iter();
    while let Some(_) = it.next() {
        cnt += 1;
    }
    assert_eq!(cnt, 0);

    let mut cnt_mut = 0;
    let mut it_mut = pool.iter_mut();
    while let Some(_) = it_mut.next() {
        cnt_mut += 1;
    }
    assert_eq!(cnt_mut, 0);
}

#[test]
fn test_pool_iter() {
    const N: usize = 1024;

    let mut pool = Pool::<String, usize, N>::new();

    for i in 0..N {
        pool.insert(i, format!("{}", i));
        assert!(pool.contains(i));
        assert_eq!(pool.get(i), &format!("{}", i));
    }

    let mut it = pool.iter();
    while let Some(value) = it.next() {
        let index: usize = value.parse().unwrap();
        assert!(pool.contains(index));
        assert_eq!(pool.get(index), value);
        assert_eq!(value, &format!("{}", index));
    }

    let mut it_mut = pool.iter_mut();
    while let Some(value) = it_mut.next() {
        *value = "modified".to_string();
    }

    let mut cnt = 0;
    let mut it = pool.iter();
    while let Some(value) = it.next() {
        assert_eq!(value, "modified");
        cnt += 1;
    }
    assert_eq!(cnt, N);
}

#[test]
fn test_entity_map_insert_get_remove_once() {
    let mut map = EntityMap::<Entity, String>::default();

    let entity = Entity::new_unchecked(1, 0);
    map.insert(entity, "name".to_string());
    assert!(map.contains(entity));
    assert_eq!(map.get(entity), "name");

    let value = map.remove(entity);
    assert_eq!(value, "name");
    assert!(!map.contains(entity));
}

#[test]
fn test_entity_map_insert_get_remove_multiple() {
    const N: usize = 1024;
    let mut map = EntityMap::<Entity, String>::new();

    for i in 0..N {
        let entity = Entity::new_unchecked(1, i as <Entity as EntityOps>::Id);
        map.insert(entity, format!("{}", i));
        assert!(map.contains(entity));
        assert_eq!(map.get(entity), &format!("{}", i));
    }

    for i in 0..N {
        let entity = Entity::new_unchecked(1, i as <Entity as EntityOps>::Id);
        let value = map.remove(entity);
        assert_eq!(value, format!("{}", i));
        assert!(!map.contains(entity));
    }
}

#[test]
fn test_entitiy_map_iter() {
    const N: usize = 1024;

    let mut map = EntityMap::<Entity, String>::new();

    for i in 0..N {
        let entity = Entity::new_unchecked(1, i as <Entity as EntityOps>::Id);
        map.insert(entity, format!("{}", i));
        assert!(map.contains(entity));
        assert_eq!(map.get(entity), &format!("{}", i));
    }

    let mut it = map.iter();
    while let Some(value) = it.next() {
        let index: usize = value.parse().unwrap();
        let entity = Entity::new_unchecked(1, index as <Entity as EntityOps>::Id);
        assert!(map.contains(entity));
        assert_eq!(map.get(entity), value);
        assert_eq!(value, &format!("{}", index));
    }

    let mut it_mut = map.iter_mut();
    while let Some(value) = it_mut.next() {
        *value = "modified".to_string();
    }

    let mut cnt = 0;
    let mut it = map.iter();
    while let Some(value) = it.next() {
        assert_eq!(value, "modified");
        cnt += 1;
    }
    assert_eq!(cnt, N);
}

#[test]
fn test_empty_entity_map_iter() {
    let mut map = EntityMap::<Entity, String>::new();

    let mut cnt = 0;
    let mut it = map.iter();
    while let Some(_) = it.next() {
        cnt += 1;
    }
    assert_eq!(cnt, 0);

    let mut cnt_mut = 0;
    let mut it_mut = map.iter_mut();
    while let Some(_) = it_mut.next() {
        cnt_mut += 1;
    }
    assert_eq!(cnt_mut, 0);
}

#[test]
fn entity_map_spans_several_pools() {
    let mut map = EntityMap::<Entity, u32>::new();
    let a = Entity::new(1, 5).unwrap();
    let b = Entity::new(1, 300).unwrap();
    let c = Entity::new(2, 70_000).unwrap();
    map.insert(a, 5);
    map.insert(b, 300);
    map.insert(c, 70_000);
    *map.get_mut(b) += 1;
    assert_eq!(*map.get(b), 301);
    let mut seen = Vec::new();
    let mut it = map.iter();
    while let Some(v) = it.next() {
        seen.push(*v);
    }
    assert_eq!(seen, vec![5, 301, 70_000]);
    assert_eq!(map.remove(c), 70_000);
    assert!(!map.contains(c));
    assert!(map.contains(a));
}

#[test]
fn entity_ops_packing() {
    assert!(Entity::new(0, 1).is_none());
    assert!(Entity::new(1, 0x0100_0000).is_none());
    let e = Entity::new(3, 0x00AB_CDEF).unwrap();
    assert_eq!(e.ver(), 3);
    assert_eq!(e.id(), 0x00AB_CDEF);
    assert_eq!(e.locate::<256>(), (0xABCD, 0xEF));
    let e = Entity::new(255, 7).unwrap().next_ver();
    assert_eq!(e.ver(), 1);
    assert_eq!(e.id(), 7);
    assert_eq!(Entity::new(9, 7).unwrap().next_ver().ver(), 10);
}

#[test]
fn entity64_ops_packing() {
    let e = Entity64::new(0xFFFF, 0x0000_FFFF_FFFF_FFFF).unwrap();
    assert_eq!(e.ver(), 0xFFFF);
    assert_eq!(e.id(), 0x0000_FFFF_FFFF_FFFF);
    assert_eq!(e.next_ver().ver(), 1);
    assert!(Entity64::new(1, 0x0001_0000_0000_0000).is_none());
}
