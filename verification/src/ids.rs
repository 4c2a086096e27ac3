//! Typed handles for the elements of a world geometry.
//!
//! Each handle holds the 64-bit form of a slot map key: the slot's version in the
//! high half and its index in the low half. Live versions are always odd, so
//! every key this crate hands out has bit 32 set; the handles keep that as their
//! invariant.
use vstd::prelude::*;

verus! {

/// The key that `k` is read as by a slot map: the version's low bit is forced on.
pub open spec fn key_norm(k: u64) -> u64 {
    k | 0x1_0000_0000u64
}

/// `k` is the 64-bit form of a slot map key.
pub open spec fn is_key(k: u64) -> bool {
    key_norm(k) == k
}

/// The slot that key `k` addresses.
pub open spec fn slot_index(k: u64) -> u64 {
    k & 0xffff_ffffu64
}

/// The key that addresses no slot: index `u32::MAX`, version 1.
pub const NULL_KEY: u64 = 0x1_ffff_ffffu64;

pub proof fn lemma_null_key_is_key()
    ensures
        is_key(NULL_KEY),
{
    assert(0x1_ffff_ffffu64 | 0x1_0000_0000u64 == 0x1_ffff_ffffu64) by (bit_vector);
}

/// Reading a key forces the version's low bit, so it is a key.
pub proof fn lemma_key_norm_is_key(k: u64)
    ensures
        is_key(key_norm(k)),
{
    assert((k | 0x1_0000_0000u64) | 0x1_0000_0000u64 == k | 0x1_0000_0000u64) by (bit_vector);
}

/// A key whose slot index is below `u32::MAX` is not the null key.
pub proof fn lemma_slot_index_not_null(k: u64)
    requires
        slot_index(k) < 0xffff_ffff,
    ensures
        k != NULL_KEY,
{
    assert(0x1_ffff_ffffu64 & 0xffff_ffffu64 == 0xffff_ffffu64) by (bit_vector);
}

/// Handle of a vertex.
#[derive(Clone, Copy, PartialEq, Eq, Structural, Debug, Hash)]
pub struct VertexId {
    key: u64,
}

/// Handle of a wall (a directed half-edge of a room's outline).
#[derive(Clone, Copy, PartialEq, Eq, Structural, Debug, Hash)]
pub struct WallId {
    key: u64,
}

/// Handle of a room.
#[derive(Clone, Copy, PartialEq, Eq, Structural, Debug, Hash)]
pub struct RoomId {
    key: u64,
}

impl VertexId {
    #[verifier::type_invariant]
    spec fn inv(self) -> bool {
        is_key(self.key)
    }

    pub closed spec fn key(self) -> u64 {
        self.key
    }

    pub(crate) fn from_key(key: u64) -> (id: Self)
        requires
            is_key(key),
        ensures
            id.key() == key,
    {
        VertexId { key }
    }

    pub(crate) fn raw(self) -> (k: u64)
        ensures
            k == self.key(),
            is_key(k),
    {
        proof {
            use_type_invariant(&self);
        }
        self.key
    }

    /// The handle that names no vertex.
    pub fn null() -> (id: Self)
        ensures
            id.key() == NULL_KEY,
    {
        proof {
            lemma_null_key_is_key();
        }
        VertexId { key: NULL_KEY }
    }

    /// The handle for the 64-bit form `k` of a slot map key, read as
    /// `KeyData::from_ffi` reads it.
    pub fn from_ffi(k: u64) -> (id: Self)
        ensures
            id.key() == key_norm(k),
    {
        let key = k | 0x1_0000_0000u64;
        proof {
            lemma_key_norm_is_key(k);
        }
        VertexId { key }
    }

    /// The 64-bit form of the handle's key.
    pub fn to_ffi(self) -> (k: u64)
        ensures
            k == self.key(),
    {
        self.key
    }
}

impl WallId {
    #[verifier::type_invariant]
    spec fn inv(self) -> bool {
        is_key(self.key)
    }

    pub closed spec fn key(self) -> u64 {
        self.key
    }

    pub(crate) fn from_key(key: u64) -> (id: Self)
        requires
            is_key(key),
        ensures
            id.key() == key,
    {
        WallId { key }
    }

    pub(crate) fn raw(self) -> (k: u64)
        ensures
            k == self.key(),
            is_key(k),
    {
        proof {
            use_type_invariant(&self);
        }
        self.key
    }

    /// The handle that names no wall.
    pub fn null() -> (id: Self)
        ensures
            id.key() == NULL_KEY,
    {
        proof {
            lemma_null_key_is_key();
        }
        WallId { key: NULL_KEY }
    }

    /// The handle for the 64-bit form `k` of a slot map key, read as
    /// `KeyData::from_ffi` reads it.
    pub fn from_ffi(k: u64) -> (id: Self)
        ensures
            id.key() == key_norm(k),
    {
        let key = k | 0x1_0000_0000u64;
        proof {
            lemma_key_norm_is_key(k);
        }
        WallId { key }
    }

    /// The 64-bit form of the handle's key.
    pub fn to_ffi(self) -> (k: u64)
        ensures
            k == self.key(),
    {
        self.key
    }
}

impl RoomId {
    #[verifier::type_invariant]
    spec fn inv(self) -> bool {
        is_key(self.key)
    }

    pub closed spec fn key(self) -> u64 {
        self.key
    }

    pub(crate) fn from_key(key: u64) -> (id: Self)
        requires
            is_key(key),
        ensures
            id.key() == key,
    {
        RoomId { key }
    }

    pub(crate) fn raw(self) -> (k: u64)
        ensures
            k == self.key(),
            is_key(k),
    {
        proof {
            use_type_invariant(&self);
        }
        self.key
    }

    /// The handle that names no room.
    pub fn null() -> (id: Self)
        ensures
            id.key() == NULL_KEY,
    {
        proof {
            lemma_null_key_is_key();
        }
        RoomId { key: NULL_KEY }
    }

    /// The handle for the 64-bit form `k` of a slot map key, read as
    /// `KeyData::from_ffi` reads it.
    pub fn from_ffi(k: u64) -> (id: Self)
        ensures
            id.key() == key_norm(k),
    {
        let key = k | 0x1_0000_0000u64;
        proof {
            lemma_key_norm_is_key(k);
        }
        RoomId { key }
    }

    /// The 64-bit form of the handle's key.
    pub fn to_ffi(self) -> (k: u64)
        ensures
            k == self.key(),
    {
        self.key
    }
}

/// Two handles are equal exactly when their keys are.
pub broadcast proof fn lemma_wall_id_eq(a: WallId, b: WallId)
    ensures
        (a == b) <==> (#[trigger] a.key() == #[trigger] b.key()),
{
}

pub broadcast proof fn lemma_room_id_eq(a: RoomId, b: RoomId)
    ensures
        (a == b) <==> (#[trigger] a.key() == #[trigger] b.key()),
{
}

pub broadcast proof fn lemma_vertex_id_eq(a: VertexId, b: VertexId)
    ensures
        (a == b) <==> (#[trigger] a.key() == #[trigger] b.key()),
{
}

pub broadcast group group_id_eq {
    lemma_wall_id_eq,
    lemma_room_id_eq,
    lemma_vertex_id_eq,
}

} // verus!
