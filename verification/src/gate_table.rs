use vstd::prelude::*;
use crate::gate::{Gate, GateView};
use crate::keys::{counts, GateKey};
use slotmap::{DefaultKey, Key, KeyData, SlotMap};

verus! {

/// The most items a table can hold.
pub const MAX_ITEMS: usize = 0xffff_fffe;

/// The gates of a circuit, each under the key it was given when it was
/// inserted. The storage is a `slotmap::SlotMap`. A key crosses to it by
/// its bits (`KeyData::from_ffi`) and comes back by them
/// (`KeyData::as_ffi`); as every `GateKey` has the lowest generation bit set,
/// the bits name the same key on both sides.
#[verifier::external_body]
pub struct GateTable {
    slots: SlotMap<DefaultKey, Gate>,
}

/// The gates that a table holds, by key.
pub uninterp spec fn gate_entries(table: GateTable) -> Map<GateKey, GateView>;

/// `SlotMap::with_key`: a table that holds nothing.
#[verifier::external_body]
fn slots_new() -> (table: GateTable)
    ensures
        gate_entries(table).dom() == Set::<GateKey>::empty(),
{
    GateTable { slots: SlotMap::with_key() }
}

/// `SlotMap::len`: the number of keys that are present, which is finite.
#[verifier::external_body]
fn slots_len(table: &GateTable) -> (n: usize)
    ensures
        counts(n, gate_entries(*table).dom()),
{
    table.slots.len()
}

/// `SlotMap::insert`: stores a gate under a key that was not present and
/// leaves the other entries alone. It panics when the map is full, which a
/// map with fewer than `MAX_ITEMS` entries is not.
#[verifier::external_body]
fn slots_insert(table: &mut GateTable, gate: Gate) -> (key: GateKey)
    requires
        gate_entries(*old(table)).dom().len() < MAX_ITEMS,
    ensures
        !gate_entries(*old(table)).contains_key(key),
        gate_entries(*final(table)) == gate_entries(*old(table)).insert(key, gate@),
{
    GateKey { bits: table.slots.insert(gate).data().as_ffi() }
}

/// `SlotMap::remove`: takes out the entry under the key and returns its
/// gate, or returns `None` and changes nothing when the key is not present.
#[verifier::external_body]
fn slots_remove(table: &mut GateTable, key: GateKey) -> (r: Option<Gate>)
    ensures
        gate_entries(*final(table)) == gate_entries(*old(table)).remove(key),
        match r {
            Some(gate) => gate_entries(*old(table)).contains_key(key)
                && gate@ == gate_entries(*old(table))[key],
            None => !gate_entries(*old(table)).contains_key(key),
        },
{
    table.slots.remove(DefaultKey::from(KeyData::from_ffi(key.bits)))
}

/// `SlotMap::get`: what is stored under the key, if the key is present.
#[verifier::external_body]
fn slots_get(table: &GateTable, key: GateKey) -> (r: Option<&Gate>)
    ensures
        match r {
            Some(gate) => gate_entries(*table).contains_key(key)
                && gate@ == gate_entries(*table)[key],
            None => !gate_entries(*table).contains_key(key),
        },
{
    table.slots.get(DefaultKey::from(KeyData::from_ffi(key.bits)))
}

/// `SlotMap::get_mut`: what is stored under the key, if the key is present. What
/// the caller leaves in it is what the table then holds under that key.
#[verifier::external_body]
fn slots_get_mut(table: &mut GateTable, key: GateKey) -> (r: Option<&mut Gate>)
    ensures
        match r {
            Some(gate) => gate_entries(*old(table)).contains_key(key)
                && gate@ == gate_entries(*old(table))[key]
                && gate_entries(*final(table)) == gate_entries(*old(table)).insert(
                key,
                final(gate)@,
            ),
            None => !gate_entries(*old(table)).contains_key(key)
                && gate_entries(*final(table)) == gate_entries(*old(table)),
        },
{
    table.slots.get_mut(DefaultKey::from(KeyData::from_ffi(key.bits)))
}

/// `SlotMap::keys`: every key that is present, once each. The order is not
/// stated.
#[verifier::external_body]
fn slots_keys(table: &GateTable) -> (keys: Vec<GateKey>)
    ensures
        keys@.no_duplicates(),
        keys@.to_set() == gate_entries(*table).dom(),
{
    table.slots.keys().map(|k| GateKey { bits: k.data().as_ffi() }).collect()
}

impl View for GateTable {
    type V = Map<GateKey, GateView>;

    open spec fn view(&self) -> Map<GateKey, GateView> {
        gate_entries(*self)
    }
}

impl GateTable {
    /// A table that holds nothing.
    pub fn new() -> (table: GateTable)
        ensures
            table@ == Map::<GateKey, GateView>::empty(),
    {
        let table = slots_new();
        assert(table@ =~= Map::<GateKey, GateView>::empty());
        table
    }

    /// Number of gates in the table.
    pub fn len(&self) -> (n: usize)
        ensures
            self@.dom().finite(),
            n == self@.dom().len(),
    {
        slots_len(self)
    }

    /// Whether there is room for one more gate.
    pub fn has_room(&self) -> (r: bool)
        ensures
            r == (self@.dom().len() < MAX_ITEMS),
    {
        slots_len(self) < MAX_ITEMS
    }

    /// Stores a gate under a key that was not in use.
    pub fn insert(&mut self, gate: Gate) -> (key: GateKey)
        requires
            old(self)@.dom().len() < MAX_ITEMS,
        ensures
            !old(self)@.contains_key(key),
            final(self)@ == old(self)@.insert(key, gate@),
    {
        slots_insert(self, gate)
    }

    /// Takes what is stored under `key` out of the table.
    pub fn remove(&mut self, key: GateKey) -> (r: Option<Gate>)
        ensures
            final(self)@ == old(self)@.remove(key),
            match r {
                Some(gate) => old(self)@.contains_key(key) && gate@ == old(self)@[key],
                None => !old(self)@.contains_key(key),
            },
    {
        slots_remove(self, key)
    }

    pub fn contains_key(&self, key: GateKey) -> (r: bool)
        ensures
            r == self@.contains_key(key),
    {
        slots_get(self, key).is_some()
    }

    /// What is stored under `key`.
    pub fn get(&self, key: GateKey) -> (r: Option<&Gate>)
        ensures
            match r {
                Some(gate) => self@.contains_key(key) && gate@ == self@[key],
                None => !self@.contains_key(key),
            },
    {
        slots_get(self, key)
    }

    /// What is stored under `key`, to be changed in place.
    pub fn get_mut(&mut self, key: GateKey) -> (r: Option<&mut Gate>)
        ensures
            match r {
                Some(gate) => old(self)@.contains_key(key) && gate@ == old(self)@[key]
                    && final(self)@ == old(self)@.insert(key, final(gate)@),
                None => !old(self)@.contains_key(key) && final(self)@ == old(self)@,
            },
    {
        slots_get_mut(self, key)
    }

    /// The keys of all gates, once each, in no stated order.
    pub fn keys(&self) -> (keys: Vec<GateKey>)
        ensures
            keys@.no_duplicates(),
            keys@.to_set() == self@.dom(),
    {
        slots_keys(self)
    }
}

} // verus!
