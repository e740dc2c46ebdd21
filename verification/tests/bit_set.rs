use rentt::bit_set::BitSet;

fn collect(bs: &BitSet) -> Vec<usize> {
    let mut items = Vec::new();
    let mut it = bs.iter();
    while let Some(x) = it.next() {
        items.push(x);
    }
    items
}

#[test]
fn test_insert_and_contains() {
    let mut bs = BitSet::default();
    bs.insert(1);
    bs.insert(3);
    bs.insert(62);

    assert!(bs.contains(1));
    assert!(bs.contains(3));
    assert!(bs.contains(62));
    assert!(!bs.contains(0));
    assert!(!bs.contains(5));
}

#[test]
fn test_remove() {
    let mut bs = BitSet::default();
    bs.insert(1);
    bs.insert(3);
    bs.insert(62);
    bs.remove(3);

    assert!(bs.contains(1));
    assert!(!bs.contains(3));
    assert!(bs.contains(62));
}

#[test]
fn test_iteration() {
    let mut bs = BitSet::default();
    bs.insert(1);
    bs.insert(3);
    bs.insert(62);

    let mut items: Vec<usize> = collect(&bs);
    items.sort();

    assert_eq!(items, vec![1, 3, 62]);
}

#[test]
fn test_empty() {
    let bs = BitSet::default();
    let items: Vec<usize> = collect(&bs);
    assert!(items.is_empty());
}

#[test]
fn bit_set_iterates_in_increasing_order() {
    let bs = BitSet::new(0b1010_0110);
    assert_eq!(collect(&bs), vec![1, 2, 5, 7]);
    assert_eq!(collect(&BitSet::empty()), Vec::<usize>::new());
    let mut top = BitSet::empty();
    top.insert(BitSet::BITS - 1);
    assert_eq!(collect(&top), vec![BitSet::BITS - 1]);
}
