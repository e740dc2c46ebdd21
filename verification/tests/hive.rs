use rentt::utils::hive::Block;

fn collect(block: &Block<i32>) -> Vec<i32> {
    let mut out = Vec::new();
    let mut it = block.iter();
    while let Some(v) = it.next() {
        out.push(*v);
    }
    out
}

#[test]
fn test_insert_and_get() {
    let mut block = Block::new(4);

    let a = block.insert(10);
    let b = block.insert(20);
    let c = block.insert(30);

    assert_eq!(*block.get_unchecked(a), 10);
    assert_eq!(*block.get_unchecked(b), 20);
    assert_eq!(*block.get_unchecked(c), 30);

    assert_eq!(block.len(), 3);
    assert!(!block.is_empty());
}

#[test]
fn test_remove_and_reuse() {
    let mut block = Block::new(4);

    let a = block.insert(1);
    let b = block.insert(2);
    let c = block.insert(3);

    let val = block.remove(b);
    assert_eq!(val, 2);
    assert_eq!(block.deleted(), 1);
    assert_eq!(block.len(), 2);

    let d = block.insert(42);
    assert_eq!(d, b);
    assert_eq!(block.deleted(), 0);
    assert_eq!(block.len(), 3);

    assert_eq!(*block.get_unchecked(a), 1);
    assert_eq!(*block.get_unchecked(c), 3);
    assert_eq!(*block.get_unchecked(d), 42);
}

#[test]
fn hive_test_iter() {
    let mut block = Block::new(5);
    let a = block.insert(100);
    let b = block.insert(200);
    let c = block.insert(300);

    block.remove(b);

    let collected = collect(&block);
    assert_eq!(collected, vec![100, 300]);

    assert_eq!(*block.get_unchecked(a), 100);
    assert_eq!(*block.get_unchecked(c), 300);
}

#[test]
fn hive_slots_are_reused_last_freed_first() {
    let mut block = Block::new(4);
    let a = block.insert(1);
    let b = block.insert(2);
    let c = block.insert(3);
    block.remove(a);
    block.remove(c);
    assert_eq!(block.insert(7), c);
    assert_eq!(block.insert(8), a);
    assert_eq!(block.insert(9), 3);
    assert_eq!(collect(&block), vec![8, 2, 7, 9]);
    assert_eq!(*block.get_unchecked(b), 2);
}

#[test]
fn hive_full_and_empty() {
    let mut block = Block::new(2);
    assert!(block.is_empty());
    assert!(!block.is_full());
    let a = block.insert(5);
    block.insert(6);
    assert!(block.is_full());
    *block.get_unchecked_mut(a) = 50;
    assert_eq!(collect(&block), vec![50, 6]);
    assert_eq!(block.remove(a), 50);
    assert!(!block.is_full());
    assert_eq!(block.len(), 1);
}

#[test]
fn hive_full_at_a_given_capacity() {
    let mut block = Block::new(3);
    let a = block.insert(1);
    block.insert(2);
    assert!(block.is_full_at(2));
    assert!(!block.is_full_at(3));
    block.remove(a);
    assert!(!block.is_full_at(2));
    assert!(block.is_full_at(1));
}
