use vstd::prelude::*;

verus! {

/// The lowest bit of the generation tag. It is set in every key.
pub const OCCUPIED_BIT: u64 = 0x1_0000_0000;

/// Number of distinct slot numbers, and the factor between the generation
/// tag and the slot number within a key.
pub const SLOT_SPAN: u64 = 0x1_0000_0000;

/// The slot number that no stored item ever has.
pub const NULL_SLOT: u64 = 0xffff_ffff;

/// Slot number held in the low 32 bits of a key.
pub open spec fn slot_of(bits: u64) -> int {
    bits as int % SLOT_SPAN as int
}

/// Generation tag held in the high 32 bits of a key.
pub open spec fn version_of(bits: u64) -> int {
    bits as int / SLOT_SPAN as int
}

/// Whether generation `a` is older than generation `b`, where generations
/// are counted modulo 2^32 and "older" means at least 2^31 steps behind.
pub open spec fn older_version(a: int, b: int) -> bool {
    (a - b) % (SLOT_SPAN as int) >= 0x8000_0000
}

/// Whether `n` is the number of elements of `keys`, a finite set.
pub open spec fn counts<K>(n: usize, keys: Set<K>) -> bool {
    keys.finite() && keys.len() == n
}

/// Identifier of a gate: a slot number in the low 32 bits and a generation
/// tag in the high 32 bits. A key of a removed gate is never equal to the
/// key of a gate that is present.
#[derive(Clone, Copy, PartialEq, Eq, Structural, Debug, Hash)]
pub struct GateKey {
    pub(crate) bits: u64,
}

impl GateKey {
    #[verifier::type_invariant]
    pub closed spec fn canonical(self) -> bool {
        self.bits & OCCUPIED_BIT == OCCUPIED_BIT
    }

    /// The 64 bits of the key.
    pub closed spec fn raw(self) -> u64 {
        self.bits
    }

    pub open spec fn slot(self) -> int {
        slot_of(self.raw())
    }

    pub open spec fn version(self) -> int {
        version_of(self.raw())
    }

    /// The key with the given bits, with the lowest generation bit set.
    pub fn from_bits(bits: u64) -> (key: GateKey)
        ensures
            key.raw() == bits | OCCUPIED_BIT,
    {
        assert((bits | OCCUPIED_BIT) & OCCUPIED_BIT == OCCUPIED_BIT) by (bit_vector);
        GateKey { bits: bits | OCCUPIED_BIT }
    }

    /// The 64 bits of the key. `from_bits` makes the key of them again.
    pub fn to_bits(self) -> (bits: u64)
        ensures
            bits == self.raw(),
            bits | OCCUPIED_BIT == bits,
    {
        proof {
            use_type_invariant(&self);
            let b = self.bits;
            assert(b & OCCUPIED_BIT == OCCUPIED_BIT ==> b | OCCUPIED_BIT == b) by (bit_vector);
        }
        self.bits
    }

    /// Two keys with the same bits are the same key.
    pub proof fn lemma_raw_injective(a: GateKey, b: GateKey)
        requires
            a.raw() == b.raw(),
        ensures
            a == b,
    {
    }
}

/// Identifier of a wire, laid out as a [`GateKey`].
#[derive(Clone, Copy, PartialEq, Eq, Structural, Debug, Hash)]
pub struct WireKey {
    pub(crate) bits: u64,
}

impl WireKey {
    #[verifier::type_invariant]
    pub closed spec fn canonical(self) -> bool {
        self.bits & OCCUPIED_BIT == OCCUPIED_BIT
    }

    /// The 64 bits of the key.
    pub closed spec fn raw(self) -> u64 {
        self.bits
    }

    pub open spec fn slot(self) -> int {
        slot_of(self.raw())
    }

    pub open spec fn version(self) -> int {
        version_of(self.raw())
    }

    /// The key with the given bits, with the lowest generation bit set.
    pub fn from_bits(bits: u64) -> (key: WireKey)
        ensures
            key.raw() == bits | OCCUPIED_BIT,
    {
        assert((bits | OCCUPIED_BIT) & OCCUPIED_BIT == OCCUPIED_BIT) by (bit_vector);
        WireKey { bits: bits | OCCUPIED_BIT }
    }

    /// The 64 bits of the key. `from_bits` makes the key of them again.
    pub fn to_bits(self) -> (bits: u64)
        ensures
            bits == self.raw(),
            bits | OCCUPIED_BIT == bits,
    {
        proof {
            use_type_invariant(&self);
            let b = self.bits;
            assert(b & OCCUPIED_BIT == OCCUPIED_BIT ==> b | OCCUPIED_BIT == b) by (bit_vector);
        }
        self.bits
    }

    /// Two keys with the same bits are the same key.
    pub proof fn lemma_raw_injective(a: WireKey, b: WireKey)
        requires
            a.raw() == b.raw(),
        ensures
            a == b,
    {
    }
}

} // verus!
