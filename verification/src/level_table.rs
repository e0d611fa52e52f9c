use vstd::prelude::*;
use crate::keys::{counts, older_version, WireKey, NULL_SLOT};
use slotmap::{DefaultKey, Key, KeyData, SecondaryMap};

verus! {

/// One Boolean level per wire key. The storage is a
/// `slotmap::SecondaryMap`, which keeps at most one key per slot. A key
/// crosses to it by its bits (`KeyData::from_ffi`) and comes back by them
/// (`KeyData::as_ffi`); as every `WireKey` has the lowest generation bit
/// set, the bits name the same key on both sides.
#[verifier::external_body]
pub struct LevelTable {
    slots: SecondaryMap<DefaultKey, bool>,
}

/// The levels that a table holds, by key.
pub uninterp spec fn level_entries(table: LevelTable) -> Map<WireKey, bool>;

/// Whether `held` keeps `key` out of its slot: it has the same slot, is
/// another key, and `key` is of an older generation.
pub open spec fn outranks(held: WireKey, key: WireKey) -> bool {
    &&& held.slot() == key.slot()
    &&& held != key
    &&& older_version(key.version(), held.version())
}

/// The levels after `key` is given the level `value`. A key in the null
/// slot, or one that an entry outranks, changes nothing. Otherwise the key
/// takes its slot: whatever was held there leaves.
pub open spec fn seeded(levels: Map<WireKey, bool>, key: WireKey, value: bool) -> Map<
    WireKey,
    bool,
> {
    if key.slot() == NULL_SLOT || exists|held: WireKey|
        levels.contains_key(held) && outranks(held, key) {
        levels
    } else {
        Map::new(
            |k: WireKey| k == key || (levels.contains_key(k) && k.slot() != key.slot()),
            |k: WireKey|
                if k == key {
                    value
                } else {
                    levels[k]
                },
        )
    }
}

/// Where no other key holds the slot of `key`, seeding is insertion.
pub proof fn lemma_seeded_free_slot(levels: Map<WireKey, bool>, key: WireKey, value: bool)
    requires
        key.slot() != NULL_SLOT,
        forall|k: WireKey| #[trigger] levels.contains_key(k) && k != key ==> k.slot() != key.slot(),
    ensures
        seeded(levels, key, value) == levels.insert(key, value),
{
    assert(seeded(levels, key, value) =~= levels.insert(key, value));
}

/// `SecondaryMap::new`: a table that holds nothing.
#[verifier::external_body]
fn levels_new() -> (table: LevelTable)
    ensures
        level_entries(table).dom() == Set::<WireKey>::empty(),
{
    LevelTable { slots: SecondaryMap::new() }
}

/// `SecondaryMap::len`: the number of keys that are present, which is
/// finite.
#[verifier::external_body]
fn levels_len(table: &LevelTable) -> (n: usize)
    ensures
        counts(n, level_entries(*table).dom()),
{
    table.slots.len()
}

/// `SecondaryMap::insert`: returns the level the key had, if it was
/// present. It does nothing for a key in the null slot, or when the key's
/// slot holds a key of a newer generation; otherwise the key replaces what
/// its slot held.
#[verifier::external_body]
fn levels_insert(table: &mut LevelTable, key: WireKey, value: bool) -> (r: Option<bool>)
    ensures
        level_entries(*final(table)) == seeded(level_entries(*old(table)), key, value),
        r == (if key.slot() != NULL_SLOT && level_entries(*old(table)).contains_key(key) {
            Some(level_entries(*old(table))[key])
        } else {
            None
        }),
{
    table.slots.insert(DefaultKey::from(KeyData::from_ffi(key.bits)), value)
}

/// `SecondaryMap::remove`: takes out the entry under the key and returns
/// its level, or returns `None` and changes nothing when the key is not
/// present.
#[verifier::external_body]
fn levels_remove(table: &mut LevelTable, key: WireKey) -> (r: Option<bool>)
    ensures
        level_entries(*final(table)) == level_entries(*old(table)).remove(key),
        r == (if level_entries(*old(table)).contains_key(key) {
            Some(level_entries(*old(table))[key])
        } else {
            None
        }),
{
    table.slots.remove(DefaultKey::from(KeyData::from_ffi(key.bits)))
}

/// `SecondaryMap::get`: the level under the key, if the key is present.
#[verifier::external_body]
fn levels_get(table: &LevelTable, key: WireKey) -> (r: Option<bool>)
    ensures
        r == (if level_entries(*table).contains_key(key) {
            Some(level_entries(*table)[key])
        } else {
            None
        }),
{
    table.slots.get(DefaultKey::from(KeyData::from_ffi(key.bits))).copied()
}

/// `SecondaryMap::get_mut`: the level under the key, if the key is present.
/// What the caller leaves in it is what the table then holds under that key.
#[verifier::external_body]
fn levels_get_mut(table: &mut LevelTable, key: WireKey) -> (r: Option<&mut bool>)
    ensures
        match r {
            Some(level) => level_entries(*old(table)).contains_key(key)
                && *level == level_entries(*old(table))[key]
                && level_entries(*final(table)) == level_entries(*old(table)).insert(
                key,
                *final(level),
            ),
            None => !level_entries(*old(table)).contains_key(key)
                && level_entries(*final(table)) == level_entries(*old(table)),
        },
{
    table.slots.get_mut(DefaultKey::from(KeyData::from_ffi(key.bits)))
}

/// `SecondaryMap::keys`: every key that is present, once each. The order is
/// not stated.
#[verifier::external_body]
fn levels_keys(table: &LevelTable) -> (keys: Vec<WireKey>)
    ensures
        keys@.no_duplicates(),
        keys@.to_set() == level_entries(*table).dom(),
{
    table.slots.keys().map(|k| WireKey { bits: k.data().as_ffi() }).collect()
}

impl View for LevelTable {
    type V = Map<WireKey, bool>;

    open spec fn view(&self) -> Map<WireKey, bool> {
        level_entries(*self)
    }
}

impl LevelTable {
    /// A table that holds nothing.
    pub fn new() -> (table: LevelTable)
        ensures
            table@ == Map::<WireKey, bool>::empty(),
    {
        let table = levels_new();
        assert(table@ =~= Map::<WireKey, bool>::empty());
        table
    }

    /// Number of levels in the table.
    pub fn len(&self) -> (n: usize)
        ensures
            self@.dom().finite(),
            n == self@.dom().len(),
    {
        levels_len(self)
    }

    /// Gives `key` the level `value`, see [`seeded`]. Returns the level
    /// the key had.
    pub fn insert(&mut self, key: WireKey, value: bool) -> (r: Option<bool>)
        ensures
            final(self)@ == seeded(old(self)@, key, value),
            r == (if key.slot() != NULL_SLOT && old(self)@.contains_key(key) {
                Some(old(self)@[key])
            } else {
                None
            }),
    {
        levels_insert(self, key, value)
    }

    /// Takes the level under `key` out of the table.
    pub fn remove(&mut self, key: WireKey) -> (r: Option<bool>)
        ensures
            final(self)@ == old(self)@.remove(key),
            r == (if old(self)@.contains_key(key) {
                Some(old(self)@[key])
            } else {
                None
            }),
    {
        levels_remove(self, key)
    }

    pub fn contains_key(&self, key: WireKey) -> (r: bool)
        ensures
            r == self@.contains_key(key),
    {
        levels_get(self, key).is_some()
    }

    /// The level under `key`.
    pub fn get(&self, key: WireKey) -> (r: Option<bool>)
        ensures
            r == (if self@.contains_key(key) {
                Some(self@[key])
            } else {
                None
            }),
    {
        levels_get(self, key)
    }

    /// The level under `key`, to be changed in place.
    pub fn get_mut(&mut self, key: WireKey) -> (r: Option<&mut bool>)
        ensures
            match r {
                Some(level) => old(self)@.contains_key(key) && *level == old(self)@[key]
                    && final(self)@ == old(self)@.insert(key, *final(level)),
                None => !old(self)@.contains_key(key) && final(self)@ == old(self)@,
            },
    {
        levels_get_mut(self, key)
    }

    /// Sets the level under `key`, if the key is present. Returns whether it
    /// was.
    pub fn set(&mut self, key: WireKey, value: bool) -> (r: bool)
        ensures
            r == old(self)@.contains_key(key),
            final(self)@ == (if r {
                old(self)@.insert(key, value)
            } else {
                old(self)@
            }),
    {
        match levels_get_mut(self, key) {
            Some(level) => {
                *level = value;
                true
            },
            None => false,
        }
    }

    /// The keys of all levels, once each, in no stated order.
    pub fn keys(&self) -> (keys: Vec<WireKey>)
        ensures
            keys@.no_duplicates(),
            keys@.to_set() == self@.dom(),
    {
        levels_keys(self)
    }
}

} // verus!
