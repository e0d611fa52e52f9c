use logic_sim::gate::{Gate, Rotation};
use logic_sim::gate_table::{GateTable, MAX_ITEMS};
use logic_sim::gate_type::GateType;
use logic_sim::keys::{GateKey, WireKey};
use logic_sim::level_table::LevelTable;
use logic_sim::wire_table::WireTable;
use logic_sim::wires::{Connection, Wire};

fn key(slot: u64, version: u64) -> WireKey {
    WireKey::from_bits((version << 32) | slot)
}

#[test]
fn keys_carry_their_bits() {
    let k = WireKey::from_bits(0x0000_0003_0000_0007);
    assert_eq!(k.to_bits(), 0x0000_0003_0000_0007);
    assert_eq!(WireKey::from_bits(k.to_bits()), k);
    // The lowest generation bit is always set.
    assert_eq!(WireKey::from_bits(0x0000_0002_0000_0007).to_bits(), 0x0000_0003_0000_0007);
    assert_eq!(WireKey::from_bits(0).to_bits(), 0x0000_0001_0000_0000);
    assert_eq!(GateKey::from_bits(9).to_bits(), 0x0000_0001_0000_0009);
    assert_eq!(GateKey::from_bits(u64::MAX).to_bits(), u64::MAX);
    assert_ne!(GateKey::from_bits(1), GateKey::from_bits(2));
    assert_eq!(GateKey::from_bits(0), GateKey::from_bits(1 << 32));
}

#[test]
fn gate_table_stores_and_hands_out() {
    let mut table = GateTable::new();
    assert_eq!(table.len(), 0);
    assert!(table.has_room());
    assert!(table.keys().is_empty());
    let a = table.insert(Gate::new(Rotation::Up, GateType::AND));
    let b = table.insert(Gate::new(Rotation::Left, GateType::NOT));
    assert_ne!(a, b);
    assert_eq!(table.len(), 2);
    assert!(table.len() < MAX_ITEMS);
    assert!(table.contains_key(a));
    assert_eq!(table.get(a), Some(&Gate::new(Rotation::Up, GateType::AND)));
    assert_eq!(table.get(b).unwrap().gate_type, GateType::NOT);
    assert_eq!(table.get(b).unwrap().rotation, Rotation::Left);
    let mut keys = table.keys();
    keys.sort_by_key(|k| k.to_bits());
    let mut both = vec![a, b];
    both.sort_by_key(|k| k.to_bits());
    assert_eq!(keys, both);
    assert_eq!(GateKey::from_bits(a.to_bits()), a);
    assert!(table.get(GateKey::from_bits(a.to_bits())).is_some());
}

#[test]
fn gate_table_changes_in_place() {
    let mut table = GateTable::new();
    let a = table.insert(Gate::new(Rotation::Up, GateType::IN));
    let b = table.insert(Gate::new(Rotation::Up, GateType::OUT));
    table.get_mut(a).unwrap().active = false;
    table.get_mut(a).unwrap().change_rotation(Rotation::Down);
    assert_eq!(table.get(a).unwrap().active, false);
    assert_eq!(table.get(a).unwrap().rotation, Rotation::Down);
    assert_eq!(table.get(b), Some(&Gate::new(Rotation::Up, GateType::OUT)));
    assert_eq!(table.len(), 2);
}

#[test]
fn gate_table_forgets_what_is_removed() {
    let mut table = GateTable::new();
    let a = table.insert(Gate::new(Rotation::Up, GateType::XOR));
    let b = table.insert(Gate::new(Rotation::Up, GateType::OR));
    assert_eq!(table.remove(a), Some(Gate::new(Rotation::Up, GateType::XOR)));
    assert_eq!(table.remove(a), None);
    assert!(table.get(a).is_none());
    assert!(table.get_mut(a).is_none());
    assert!(!table.contains_key(a));
    assert_eq!(table.len(), 1);
    assert_eq!(table.keys(), vec![b]);
    // The slot is used again under another key.
    let c = table.insert(Gate::new(Rotation::Up, GateType::NOR));
    assert_ne!(c, a);
    assert_eq!(c.to_bits() & 0xffff_ffff, a.to_bits() & 0xffff_ffff);
    assert!(table.get(a).is_none());
    assert_eq!(table.get(c).unwrap().gate_type, GateType::NOR);
    assert_eq!(table.len(), 2);
}

fn wire(gate: GateKey, sinks: usize) -> Wire {
    let mut connections = Vec::new();
    for pin_index in 0..sinks {
        connections.push(Connection { pin_index, gate_index: gate });
    }
    Wire::new(Connection { pin_index: 0, gate_index: gate }, connections)
}

#[test]
fn wire_table_stores_and_hands_out() {
    let g = GateKey::from_bits(1);
    let mut table = WireTable::new();
    assert_eq!(table.len(), 0);
    assert!(table.keys().is_empty());
    let a = table.insert(wire(g, 1));
    let b = table.insert(wire(g, 2));
    assert_ne!(a, b);
    assert_ne!(a.to_bits() & 0xffff_ffff, b.to_bits() & 0xffff_ffff);
    assert_ne!(a.to_bits() & 0xffff_ffff, 0xffff_ffff);
    assert_eq!(table.len(), 2);
    assert!(table.has_room());
    assert!(table.contains_key(b));
    assert_eq!(table.get(a), Some(&wire(g, 1)));
    assert_eq!(table.get(b), Some(&wire(g, 2)));
    table.get_mut(a).unwrap().connections.clear();
    assert_eq!(table.get(a), Some(&wire(g, 0)));
    assert_eq!(table.get(b), Some(&wire(g, 2)));
    let mut keys = table.keys();
    keys.sort_by_key(|k| k.to_bits());
    let mut both = vec![a, b];
    both.sort_by_key(|k| k.to_bits());
    assert_eq!(keys, both);
    assert_eq!(table.remove(b), Some(wire(g, 2)));
    assert_eq!(table.remove(b), None);
    assert!(table.get(b).is_none());
    assert!(table.get_mut(b).is_none());
    assert_eq!(table.keys(), vec![a]);
    assert_eq!(table.len(), 1);
}

#[test]
fn level_table_stores_and_hands_out() {
    let mut table = LevelTable::new();
    assert_eq!(table.len(), 0);
    assert!(table.keys().is_empty());
    let a = key(1, 1);
    let b = key(2, 5);
    assert_eq!(table.insert(a, true), None);
    assert_eq!(table.insert(b, false), None);
    assert_eq!(table.insert(a, false), Some(true));
    assert_eq!(table.get(a), Some(false));
    assert_eq!(table.get(b), Some(false));
    assert_eq!(table.get(key(3, 1)), None);
    assert_eq!(table.get(key(1, 3)), None);
    assert!(table.contains_key(a));
    assert!(!table.contains_key(key(1, 3)));
    assert_eq!(table.len(), 2);
    assert_eq!(table.set(b, true), true);
    assert_eq!(table.set(key(2, 7), true), false);
    assert_eq!(table.get(b), Some(true));
    assert_eq!(table.get(a), Some(false));
    *table.get_mut(a).unwrap() = true;
    assert_eq!(table.get(a), Some(true));
    assert!(table.get_mut(key(9, 1)).is_none());
    let mut keys = table.keys();
    keys.sort_by_key(|k| k.to_bits());
    assert_eq!(keys, vec![a, b]);
    assert_eq!(table.remove(a), Some(true));
    assert_eq!(table.remove(a), None);
    assert_eq!(table.get(a), None);
    assert_eq!(table.keys(), vec![b]);
    assert_eq!(table.len(), 1);
}

#[test]
fn a_newer_key_takes_the_slot_of_an_older_one() {
    let mut table = LevelTable::new();
    let other = key(4, 1);
    let older = key(5, 1);
    let newer = key(5, 3);
    assert_eq!(table.insert(other, true), None);
    assert_eq!(table.insert(older, true), None);
    assert_eq!(table.insert(newer, false), None);
    assert_eq!(table.get(older), None);
    assert_eq!(table.get(newer), Some(false));
    assert_eq!(table.get(other), Some(true));
    assert_eq!(table.len(), 2);
    let mut keys = table.keys();
    keys.sort_by_key(|k| k.to_bits());
    assert_eq!(keys, vec![other, newer]);
}

#[test]
fn an_older_key_does_not_take_the_slot_of_a_newer_one() {
    let mut table = LevelTable::new();
    let older = key(5, 1);
    let newer = key(5, 3);
    assert_eq!(table.insert(newer, true), None);
    assert_eq!(table.insert(older, false), None);
    assert_eq!(table.get(older), None);
    assert_eq!(table.get(newer), Some(true));
    assert_eq!(table.len(), 1);
    assert_eq!(table.keys(), vec![newer]);
}

#[test]
fn generations_are_compared_around_the_clock() {
    // Held is exactly half the cycle ahead: the key counts as older.
    let mut table = LevelTable::new();
    let held = key(5, 0x8000_0001);
    assert_eq!(table.insert(held, true), None);
    assert_eq!(table.insert(key(5, 1), false), None);
    assert_eq!(table.get(key(5, 1)), None);
    assert_eq!(table.get(held), Some(true));
    // Held is more than half the cycle ahead: the key counts as newer.
    let mut table = LevelTable::new();
    let held = key(5, 0x8000_0003);
    assert_eq!(table.insert(held, true), None);
    assert_eq!(table.insert(key(5, 1), false), None);
    assert_eq!(table.get(key(5, 1)), Some(false));
    assert_eq!(table.get(held), None);
    assert_eq!(table.len(), 1);
    // Held is one generation behind the wrap.
    let mut table = LevelTable::new();
    let held = key(5, 0xffff_ffff);
    assert_eq!(table.insert(held, true), None);
    assert_eq!(table.insert(key(5, 1), false), None);
    assert_eq!(table.get(key(5, 1)), Some(false));
    assert_eq!(table.get(held), None);
}

#[test]
fn a_key_in_the_null_slot_is_never_stored() {
    let mut table = LevelTable::new();
    let null = key(0xffff_ffff, 1);
    assert_eq!(table.insert(key(1, 1), true), None);
    assert_eq!(table.insert(null, true), None);
    assert_eq!(table.get(null), None);
    assert_eq!(table.len(), 1);
    assert_eq!(table.keys(), vec![key(1, 1)]);
    assert_eq!(table.remove(null), None);
    assert_eq!(table.set(null, false), false);
}
