use vstd::prelude::*;
use crate::wires::{Wire, WireView};
use crate::gate_table::MAX_ITEMS;
use crate::keys::{counts, WireKey, NULL_SLOT};
use slotmap::{DefaultKey, Key, KeyData, SlotMap};

verus! {

/// The wires of a circuit, each under the key it was given when it was
/// inserted. The storage is a `slotmap::SlotMap`. A key crosses to it by
/// its bits (`KeyData::from_ffi`) and comes back by them
/// (`KeyData::as_ffi`); as every `WireKey` has the lowest generation bit set,
/// the bits name the same key on both sides.
#[verifier::external_body]
pub struct WireTable {
    slots: SlotMap<DefaultKey, Wire>,
}

/// The wires that a table holds, by key.
pub uninterp spec fn wire_entries(table: WireTable) -> Map<WireKey, WireView>;

/// `SlotMap::with_key`: a table that holds nothing.
#[verifier::external_body]
fn wire_slots_new() -> (table: WireTable)
    ensures
        wire_entries(table).dom() == Set::<WireKey>::empty(),
{
    WireTable { slots: SlotMap::with_key() }
}

/// `SlotMap::len`: the number of keys that are present, which is finite.
#[verifier::external_body]
fn wire_slots_len(table: &WireTable) -> (n: usize)
    ensures
        counts(n, wire_entries(*table).dom()),
{
    table.slots.len()
}

/// `SlotMap::insert`: stores a wire under a key that was not present and
/// leaves the other entries alone. The key's slot is one that no present key
/// has, and is not the null slot. It panics when the map is full, which a
/// map with fewer than `MAX_ITEMS` entries is not.
#[verifier::external_body]
fn wire_slots_insert(table: &mut WireTable, wire: Wire) -> (key: WireKey)
    requires
        wire_entries(*old(table)).dom().len() < MAX_ITEMS,
    ensures
        !wire_entries(*old(table)).contains_key(key),
        key.slot() != NULL_SLOT,
        forall|other: WireKey| #[trigger]
            wire_entries(*old(table)).contains_key(other) ==> other.slot() != key.slot(),
        wire_entries(*final(table)) == wire_entries(*old(table)).insert(key, wire@),
{
    WireKey { bits: table.slots.insert(wire).data().as_ffi() }
}

/// `SlotMap::remove`: takes out the entry under the key and returns its
/// wire, or returns `None` and changes nothing when the key is not present.
#[verifier::external_body]
fn wire_slots_remove(table: &mut WireTable, key: WireKey) -> (r: Option<Wire>)
    ensures
        wire_entries(*final(table)) == wire_entries(*old(table)).remove(key),
        match r {
            Some(wire) => wire_entries(*old(table)).contains_key(key)
                && wire@ == wire_entries(*old(table))[key],
            None => !wire_entries(*old(table)).contains_key(key),
        },
{
    table.slots.remove(DefaultKey::from(KeyData::from_ffi(key.bits)))
}

/// `SlotMap::get`: what is stored under the key, if the key is present.
#[verifier::external_body]
fn wire_slots_get(table: &WireTable, key: WireKey) -> (r: Option<&Wire>)
    ensures
        match r {
            Some(wire) => wire_entries(*table).contains_key(key)
                && wire@ == wire_entries(*table)[key],
            None => !wire_entries(*table).contains_key(key),
        },
{
    table.slots.get(DefaultKey::from(KeyData::from_ffi(key.bits)))
}

/// `SlotMap::get_mut`: what is stored under the key, if the key is present. What
/// the caller leaves in it is what the table then holds under that key.
#[verifier::external_body]
fn wire_slots_get_mut(table: &mut WireTable, key: WireKey) -> (r: Option<&mut Wire>)
    ensures
        match r {
            Some(wire) => wire_entries(*old(table)).contains_key(key)
                && wire@ == wire_entries(*old(table))[key]
                && wire_entries(*final(table)) == wire_entries(*old(table)).insert(
                key,
                final(wire)@,
            ),
            None => !wire_entries(*old(table)).contains_key(key)
                && wire_entries(*final(table)) == wire_entries(*old(table)),
        },
{
    table.slots.get_mut(DefaultKey::from(KeyData::from_ffi(key.bits)))
}

/// `SlotMap::keys`: every key that is present, once each. The order is not
/// stated.
#[verifier::external_body]
fn wire_slots_keys(table: &WireTable) -> (keys: Vec<WireKey>)
    ensures
        keys@.no_duplicates(),
        keys@.to_set() == wire_entries(*table).dom(),
{
    table.slots.keys().map(|k| WireKey { bits: k.data().as_ffi() }).collect()
}

impl View for WireTable {
    type V = Map<WireKey, WireView>;

    open spec fn view(&self) -> Map<WireKey, WireView> {
        wire_entries(*self)
    }
}

impl WireTable {
    /// A table that holds nothing.
    pub fn new() -> (table: WireTable)
        ensures
            table@ == Map::<WireKey, WireView>::empty(),
    {
        let table = wire_slots_new();
        assert(table@ =~= Map::<WireKey, WireView>::empty());
        table
    }

    /// Number of wires in the table.
    pub fn len(&self) -> (n: usize)
        ensures
            self@.dom().finite(),
            n == self@.dom().len(),
    {
        wire_slots_len(self)
    }

    /// Whether there is room for one more wire.
    pub fn has_room(&self) -> (r: bool)
        ensures
            r == (self@.dom().len() < MAX_ITEMS),
    {
        wire_slots_len(self) < MAX_ITEMS
    }

    /// Stores a wire under a key that was not in use, in a slot that no
    /// wire of the table has.
    pub fn insert(&mut self, wire: Wire) -> (key: WireKey)
        requires
            old(self)@.dom().len() < MAX_ITEMS,
        ensures
            !old(self)@.contains_key(key),
            key.slot() != NULL_SLOT,
            forall|other: WireKey| #[trigger]
                old(self)@.contains_key(other) ==> other.slot() != key.slot(),
            final(self)@ == old(self)@.insert(key, wire@),
    {
        wire_slots_insert(self, wire)
    }

    /// Takes what is stored under `key` out of the table.
    pub fn remove(&mut self, key: WireKey) -> (r: Option<Wire>)
        ensures
            final(self)@ == old(self)@.remove(key),
            match r {
                Some(wire) => old(self)@.contains_key(key) && wire@ == old(self)@[key],
                None => !old(self)@.contains_key(key),
            },
    {
        wire_slots_remove(self, key)
    }

    pub fn contains_key(&self, key: WireKey) -> (r: bool)
        ensures
            r == self@.contains_key(key),
    {
        wire_slots_get(self, key).is_some()
    }

    /// What is stored under `key`.
    pub fn get(&self, key: WireKey) -> (r: Option<&Wire>)
        ensures
            match r {
                Some(wire) => self@.contains_key(key) && wire@ == self@[key],
                None => !self@.contains_key(key),
            },
    {
        wire_slots_get(self, key)
    }

    /// What is stored under `key`, to be changed in place.
    pub fn get_mut(&mut self, key: WireKey) -> (r: Option<&mut Wire>)
        ensures
            match r {
                Some(wire) => old(self)@.contains_key(key) && wire@ == old(self)@[key]
                    && final(self)@ == old(self)@.insert(key, final(wire)@),
                None => !old(self)@.contains_key(key) && final(self)@ == old(self)@,
            },
    {
        wire_slots_get_mut(self, key)
    }

    /// The keys of all wires, once each, in no stated order.
    pub fn keys(&self) -> (keys: Vec<WireKey>)
        ensures
            keys@.no_duplicates(),
            keys@.to_set() == self@.dom(),
    {
        wire_slots_keys(self)
    }
}

} // verus!
