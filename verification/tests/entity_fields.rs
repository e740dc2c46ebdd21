use rentt::entity_fields::{EntityId, EntityVer, Id12, Id24, Id48, Ver16, Ver4, Ver8};

#[test]
fn test_id12() {
    assert!(Id12::new(0).is_some());
    assert!(Id12::new(0x1000).is_none());
    let id = Id12::new(0x0FFF).unwrap();
    assert_eq!(id.get(), 0x0FFF);

    let index = id.into_index();
    assert_eq!(index, 0x0FFF);
    let id2 = Id12::from_index(index);
    assert_eq!(id, id2);
}

#[test]
fn test_id24() {
    assert!(Id24::new(0).is_some());
    assert!(Id24::new(0x0100_0000).is_none());
    let id = Id24::new(0x00FF_FFFF).unwrap();
    assert_eq!(id.get(), 0x00FF_FFFF);

    let index = id.into_index();
    assert_eq!(index, 0x00FF_FFFF);
    let id2 = Id24::from_index(index);
    assert_eq!(id, id2);
}

#[test]
fn test_id48() {
    assert!(Id48::new(0).is_some());
    assert!(Id48::new(0x0001_0000_0000_0000).is_none());
    let id = Id48::new(0x0000_FFFF_FFFF_FFFF).unwrap();
    assert_eq!(id.get(), 0x0000_FFFF_FFFF_FFFF);

    let index = id.into_index();
    assert_eq!(index, 0x0000_FFFF_FFFF_FFFF);
    let id2 = Id48::from_index(index);
    assert_eq!(id, id2);
}

#[test]
fn test_ver4() {
    assert!(Ver4::new(0).is_none());
    assert!(Ver4::new(16).is_none());
    let ver = Ver4::new(15).unwrap();
    assert_eq!(ver.get(), 15);
    assert_eq!(ver.next().get(), 1);
}

#[test]
fn test_ver8() {
    assert!(Ver8::new(0).is_none());
    let ver = Ver8::new(255).unwrap();
    assert_eq!(ver.get(), 255);
    assert_eq!(ver.next().get(), 1);
}

#[test]
fn test_ver16() {
    assert!(Ver16::new(0).is_none());
    let ver = Ver16::new(65535).unwrap();
    assert_eq!(ver.get(), 65535);
    assert_eq!(ver.next().get(), 1);
}

#[test]
fn id_next_and_zero() {
    let zero = Id12::zero();
    assert_eq!(zero.get(), 0);
    assert_eq!(zero.next().unwrap().get(), 1);
    assert!(Id12::new(0x0FFF).unwrap().next().is_none());
    assert_eq!(Id24::zero().into_index(), 0);
}

#[test]
fn id_new_unchecked_keeps_value() {
    assert_eq!(Id12::new_unchecked(7).get(), 7);
    assert_eq!(Id24::new_unchecked(0x00AB_CDEF).get(), 0x00AB_CDEF);
    assert_eq!(Id48::new_unchecked(0x0000_1234_5678_9ABC).get(), 0x0000_1234_5678_9ABC);
}

#[test]
fn ver_min_max_and_next() {
    assert_eq!(Ver4::min().get(), 1);
    assert_eq!(Ver4::max().get(), 15);
    assert_eq!(Ver8::max().get(), 255);
    assert_eq!(Ver16::max().get(), 65535);
    assert_eq!(Ver4::new(3).unwrap().next().get(), 4);
    assert_eq!(Ver8::new(254).unwrap().next().get(), 255);
    assert_eq!(Ver16::new(1).unwrap().next().get(), 2);
    assert!(Ver8::new(1).is_some());
}
