use nextpnr::chipdb::{PipId, WireId};
use nextpnr::ids::IdMap;
use nextpnr::metrics::BoundingBox;
use nextpnr::netlist::{CellId, CellPin, NetId};
use nextpnr::order::stable_order;
use nextpnr::router::corridor::TileXy;
use nextpnr::text::{contains_text, decimal, join3, push_digits, same_text};
use nextpnr::types::enums::{PlaceStrength, PortType};
use nextpnr::types::id_string::{IdString, IdStringPool, IntoIdString};

#[test]
fn map_keeps_what_was_inserted() {
    let mut m: IdMap<WireId, i32> = IdMap::new();
    assert!(m.get(WireId::new(1, 2)).is_none());
    assert!(m.insert(WireId::new(1, 2), 5).is_none());
    assert_eq!(m.insert(WireId::new(1, 2), 6), Some(5));
    assert!(m.insert(WireId::new(-1, -2), 7).is_none());
    assert_eq!(m.get(WireId::new(1, 2)), Some(&6));
    assert_eq!(m.get(WireId::new(-1, -2)), Some(&7));
    assert!(!m.contains_key(WireId::new(2, 1)));
    assert_eq!(m.len(), 2);
    let copy = m.duplicate();
    assert_eq!(m.remove(WireId::new(1, 2)), Some(6));
    assert_eq!(m.remove(WireId::new(1, 2)), None);
    assert_eq!(m.len(), 1);
    assert_eq!(copy.get(WireId::new(1, 2)), Some(&6));
}

#[test]
fn map_lists_each_key_once() {
    let mut m: IdMap<PipId, u8> = IdMap::new();
    for i in 0..20 {
        let _ = m.insert(PipId::new(i % 5, i), 0);
        let _ = m.insert(PipId::new(i % 5, i), 1);
    }
    let mut keys: Vec<(i32, i32)> = m.keys().iter().map(|p| (p.tile, p.index)).collect();
    keys.sort();
    let mut expected: Vec<(i32, i32)> = (0..20).map(|i| (i % 5, i)).collect();
    expected.sort();
    assert_eq!(keys, expected);
}

#[test]
fn keys_of_every_kind_come_back() {
    let mut nets: IdMap<NetId, ()> = IdMap::new();
    let _ = nets.insert(NetId(4_000_000_000), ());
    assert_eq!(nets.keys()[0], NetId(4_000_000_000));
    let mut pins: IdMap<CellPin, ()> = IdMap::new();
    let pin = CellPin::new(CellId(7), IdString(-3));
    let _ = pins.insert(pin, ());
    assert_eq!(pins.keys()[0], pin);
    let mut tiles: IdMap<TileXy, ()> = IdMap::new();
    let tile = TileXy { x: -4, y: i32::MAX };
    let _ = tiles.insert(tile, ());
    assert_eq!(tiles.keys()[0], tile);
    let mut names: IdMap<IdString, ()> = IdMap::new();
    let _ = names.insert(IdString(i32::MIN), ());
    assert_eq!(names.keys()[0], IdString(i32::MIN));
}

#[test]
fn pool_gives_one_handle_for_one_text() {
    let mut pool = IdStringPool::new();
    assert!(pool.is_empty());
    assert_eq!(pool.len(), 1);
    let a = pool.intern("clk");
    let b = pool.intern("rst");
    assert_ne!(a, b);
    assert_eq!(pool.intern("clk"), a);
    assert_eq!(pool.len(), 3);
    assert!(!pool.is_empty());
    assert_eq!(pool.lookup(a), Some("clk"));
    assert_eq!(pool.lookup(b), Some("rst"));
    assert_eq!(a.index(), 1);
    assert_eq!(b.index(), 2);
}

#[test]
fn pool_knows_the_empty_text() {
    let mut pool = IdStringPool::default();
    assert_eq!(pool.intern(""), IdString::empty());
    assert_eq!(IdString::default(), IdString::empty());
    assert!(IdString::empty().is_empty());
    assert_eq!(pool.lookup(IdString::empty()), Some(""));
    assert_eq!(pool.lookup(IdString(1)), None);
    assert_eq!(pool.lookup(IdString(-1)), None);
}

#[test]
fn texts_and_handles_become_handles() {
    let mut pool = IdStringPool::new();
    let a = "net".into_id(&mut pool);
    let owned = String::from("net");
    assert_eq!((&owned).into_id(&mut pool), a);
    assert_eq!(a.into_id(&mut pool), a);
    assert_eq!(IdString(99).into_id(&mut pool), IdString(99));
    assert_eq!(pool.len(), 2);
}

#[test]
fn text_is_found_and_joined() {
    assert!(contains_text("GLOBAL_CLK_3", "CLK"));
    assert!(contains_text("abc", ""));
    assert!(contains_text("abc", "abc"));
    assert!(!contains_text("abc", "abcd"));
    assert!(!contains_text("ababa", "bb"));
    assert!(same_text("abc", "abc"));
    assert!(!same_text("abc", "abd"));
    assert!(!same_text("abc", "ab"));
    assert_eq!(join3("a", "", "bc"), "abc");
}

#[test]
fn numbers_become_text() {
    assert_eq!(decimal(0), "0");
    assert_eq!(decimal(1234567890), "1234567890");
    assert_eq!(decimal(-42), "-42");
    assert_eq!(decimal(i32::MIN), "-2147483648");
    let mut s = String::from("n=");
    push_digits(&mut s, u64::MAX);
    assert_eq!(s, "n=18446744073709551615");
}

#[test]
fn ordering_keeps_equal_keys_in_place() {
    assert_eq!(stable_order(&vec![3, 1, 3, 2, 1]), vec![1, 4, 3, 0, 2]);
    assert_eq!(stable_order(&vec![]), Vec::<usize>::new());
    assert_eq!(stable_order(&vec![i64::MAX, i64::MIN]), vec![1, 0]);
}

#[test]
fn strengths_and_port_types_have_labels() {
    assert_eq!(PlaceStrength::default(), PlaceStrength::Free);
    assert_eq!(PlaceStrength::Weak.label(), "WEAK");
    assert_eq!(PlaceStrength::Free.label(), "NONE");
    assert!(PlaceStrength::User.is_locked());
    assert!(PlaceStrength::Fixed.is_locked());
    assert!(!PlaceStrength::Placer.is_locked());
    assert_eq!(PortType::default(), PortType::In);
    assert_eq!(PortType::InOut.label(), "INOUT");
}

#[test]
fn boxes_contain_their_edges() {
    let b = BoundingBox::new(1, 2, 3, 4);
    assert!(b.contains(1, 2));
    assert!(b.contains(3, 4));
    assert!(!b.contains(0, 2));
    assert!(!b.contains(3, 5));
}

#[test]
fn wires_know_whether_they_are_somewhere() {
    assert!(!WireId::invalid().is_valid());
    assert!(WireId::new(0, 0).is_valid());
    assert!(!CellPin::invalid().is_valid());
    assert!(CellPin::new(CellId(0), IdString(1)).is_valid());
}
