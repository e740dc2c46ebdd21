use rentt::entity::{Entity, Entity16, Entity32, Entity64, EntityInternal};
use rentt::entity_fields::{EntityId, EntityVer, Id12, Id24, Id48, Ver16, Ver4, Ver8};

#[test]
fn test_entity16() {
    let id = Id12::new(0x0FFF).unwrap();
    let ver = Ver4::new(0x0F).unwrap();
    let e = Entity16::combine(id, ver);
    assert_eq!(e.id().get(), 0x0FFF);
    assert_eq!(e.ver().get(), 0x0F);
    let e2 = e.next_ver();
    assert_eq!(e2.ver().get(), 1);
}

#[test]
fn test_entity32() {
    let id = Id24::new(0x00FF_FFFF).unwrap();
    let ver = Ver8::new(0xFF).unwrap();
    let e = Entity32::combine(id, ver);
    assert_eq!(e.id().get(), 0x00FF_FFFF);
    assert_eq!(e.ver().get(), 0xFF);
    let e2 = e.next_ver();
    assert_eq!(e2.ver().get(), 1);
}

#[test]
fn test_entity64() {
    let id = Id48::new(0x0000_FFFF_FFFF_FFFF).unwrap();
    let ver = Ver16::new(0xFFFF).unwrap();
    let e = Entity64::combine(id, ver);
    assert_eq!(e.id().get(), 0x0000_FFFF_FFFF_FFFF);
    assert_eq!(e.ver().get(), 0xFFFF);
    let e2 = e.next_ver();
    assert_eq!(e2.ver().get(), 1);
}

#[test]
fn entity_new_has_minimum_version() {
    let e = Entity32::new(Id24::new(42).unwrap());
    assert_eq!(e.id().get(), 42);
    assert_eq!(e.ver().get(), 1);
    let e2 = e.next_ver();
    assert_eq!(e2.id().get(), 42);
    assert_eq!(e2.ver().get(), 2);
    assert_ne!(e, e2);
}

#[test]
fn entity_combine_round_trip_small_values() {
    let e = Entity16::combine(Id12::new(0).unwrap(), Ver4::new(1).unwrap());
    assert_eq!(e.id().get(), 0);
    assert_eq!(e.ver().get(), 1);
    let e = Entity64::combine(Id48::new(5).unwrap(), Ver16::new(300).unwrap());
    assert_eq!(e.id().get(), 5);
    assert_eq!(e.ver().get(), 300);
}
