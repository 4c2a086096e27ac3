//! The slot maps that store a world geometry, and the few operations of the
//! `slotmap` and `smallvec` crates that the geometry code calls.
//!
//! Everything in this file is trusted: each function below makes one call into
//! `slotmap` or `smallvec`, and its contract states what that crate's source
//! does. A slot map's contents are named by a map from the 64-bit form of each
//! live key (`KeyData::as_ffi`) to its value. A `u64` handed to a function here is
//! turned back into a key with `KeyData::from_ffi`, which reads it as
//! `key_norm(k)`.
use vstd::prelude::*;
use slotmap::{DefaultKey, Key, KeyData, SecondaryMap, SlotMap};
use smallvec::SmallVec;
use crate::defs::{RoomDef, VertexDef, WallDef};
use crate::ids::{is_key, key_norm, slot_index};

verus! {

/// A slot map panics when it would need its `u32::MAX`-th slot; staying below
/// this many elements keeps every insert clear of that.
pub const MAX_SLOT_COUNT: u64 = 0xffff_fff0u64;

/// A `slotmap::SlotMap` of vertices. The `slotmap` crate's types cannot be
/// declared to Verus here (their `Key` and `Array` bounds are refused), so each
/// collection is held in a struct of its own that Verus sees only through the
/// functions below.
#[verifier::external_body]
pub struct VertexSlots {
    map: SlotMap<DefaultKey, VertexDef>,
}

/// A `slotmap::SlotMap` of walls.
#[verifier::external_body]
pub struct WallSlots {
    map: SlotMap<DefaultKey, WallDef>,
}

/// A `slotmap::SlotMap` of rooms.
#[verifier::external_body]
pub struct RoomSlots {
    map: SlotMap<DefaultKey, RoomDef>,
}

/// A `slotmap::SecondaryMap` from room keys to room keys.
#[verifier::external_body]
pub struct RoomLinks {
    map: SecondaryMap<DefaultKey, u64>,
}

/// A `smallvec::SmallVec` of keys, used as a stack.
#[verifier::external_body]
pub struct KeyStack {
    items: SmallVec<[u64; 128]>,
}

/// Contents of a slot map of vertices: the 64-bit form of each live key, mapped to its value.
pub uninterp spec fn vertex_slots(m: VertexSlots) -> Map<u64, VertexDef>;

/// `SlotMap::with_key`: a map with no element.
#[verifier::external_body]
pub(crate) fn vertex_slots_new() -> (created: VertexSlots)
    ensures
        vertex_slots(created).dom() == Set::<u64>::empty(),
{
    VertexSlots { map: SlotMap::with_key() }
}

/// `SlotMap::insert`: stores `value` under a key that addresses a slot no live
/// key addresses (a reused slot gets a newer version), and returns that key.
/// Below `MAX_SLOT_COUNT` elements it does not panic.
#[verifier::external_body]
pub(crate) fn vertex_slots_insert(m: &mut VertexSlots, value: VertexDef) -> (k: u64)
    requires
        vertex_slots(*old(m)).dom().finite(),
        vertex_slots(*old(m)).len() < MAX_SLOT_COUNT,
    ensures
        is_key(k),
        !vertex_slots(*old(m)).dom().contains(k),
        forall|j: u64| #[trigger] vertex_slots(*old(m)).dom().contains(j) ==> slot_index(j) != slot_index(k),
        vertex_slots(*final(m)) == vertex_slots(*old(m)).insert(k, value),
{
    m.map.insert(value).data().as_ffi()
}

/// `SlotMap::get`, copying the value out.
#[verifier::external_body]
pub(crate) fn vertex_slots_get(m: &VertexSlots, k: u64) -> (r: Option<VertexDef>)
    ensures
        r == if vertex_slots(*m).dom().contains(key_norm(k)) {
            Some(vertex_slots(*m)[key_norm(k)])
        } else {
            None
        },
{
    m.map.get(DefaultKey::from(KeyData::from_ffi(k))).copied()
}

/// `SlotMap::contains_key`.
#[verifier::external_body]
pub(crate) fn vertex_slots_contains(m: &VertexSlots, k: u64) -> (r: bool)
    ensures
        r == vertex_slots(*m).dom().contains(key_norm(k)),
{
    m.map.contains_key(DefaultKey::from(KeyData::from_ffi(k)))
}

/// `IndexMut` of `SlotMap`, assigning the element; it panics on a key that is not live.
#[verifier::external_body]
pub(crate) fn vertex_slots_set(m: &mut VertexSlots, k: u64, value: VertexDef)
    requires
        vertex_slots(*old(m)).dom().contains(key_norm(k)),
    ensures
        vertex_slots(*final(m)) == vertex_slots(*old(m)).insert(key_norm(k), value),
{
    m.map[DefaultKey::from(KeyData::from_ffi(k))] = value;
}

/// `SlotMap::remove`: the element under the key, if there is one, is taken
/// out; every other element stays.
#[verifier::external_body]
pub(crate) fn vertex_slots_remove(m: &mut VertexSlots, k: u64)
    ensures
        vertex_slots(*final(m)) == vertex_slots(*old(m)).remove(key_norm(k)),
{
    m.map.remove(DefaultKey::from(KeyData::from_ffi(k)));
}

/// `SlotMap::clone`: a map with the same keys and values.
#[verifier::external_body]
pub(crate) fn vertex_slots_clone(m: &VertexSlots) -> (c: VertexSlots)
    ensures
        vertex_slots(c) == vertex_slots(*m),
{
    VertexSlots { map: m.map.clone() }
}

/// `SlotMap::len`: the number of live elements.
#[verifier::external_body]
pub(crate) fn vertex_slots_len(m: &VertexSlots) -> (n: usize)
    ensures
        n == vertex_slots(*m).len(),
{
    m.map.len()
}

/// `SlotMap::keys`: every live key once, in increasing slot order. A live
/// key's version is odd, so its 64-bit form is a key.
#[verifier::external_body]
pub(crate) fn vertex_slots_keys(m: &VertexSlots) -> (keys: Vec<u64>)
    ensures
        keys@.no_duplicates(),
        forall|i: int| 0 <= i < keys@.len() ==> is_key(#[trigger] keys@[i]),
        forall|i: int| 0 <= i < keys@.len() ==> vertex_slots(*m).dom().contains(#[trigger] keys@[i]),
        forall|k: u64| #[trigger] vertex_slots(*m).dom().contains(k) ==> keys@.contains(k),
        forall|i: int, j: int| 0 <= i < j < keys@.len() ==> slot_index(#[trigger] keys@[i]) < slot_index(#[trigger] keys@[j]),
{
    let mut keys = Vec::new();
    for key in m.map.keys() {
        keys.push(key.data().as_ffi());
    }
    keys
}

/// Contents of a slot map of walls: the 64-bit form of each live key, mapped to its value.
pub uninterp spec fn wall_slots(m: WallSlots) -> Map<u64, WallDef>;

/// `SlotMap::with_key`: a map with no element.
#[verifier::external_body]
pub(crate) fn wall_slots_new() -> (created: WallSlots)
    ensures
        wall_slots(created).dom() == Set::<u64>::empty(),
{
    WallSlots { map: SlotMap::with_key() }
}

/// `SlotMap::insert`: stores `value` under a key that addresses a slot no live
/// key addresses (a reused slot gets a newer version), and returns that key.
/// Below `MAX_SLOT_COUNT` elements it does not panic.
#[verifier::external_body]
pub(crate) fn wall_slots_insert(m: &mut WallSlots, value: WallDef) -> (k: u64)
    requires
        wall_slots(*old(m)).dom().finite(),
        wall_slots(*old(m)).len() < MAX_SLOT_COUNT,
    ensures
        is_key(k),
        !wall_slots(*old(m)).dom().contains(k),
        forall|j: u64| #[trigger] wall_slots(*old(m)).dom().contains(j) ==> slot_index(j) != slot_index(k),
        wall_slots(*final(m)) == wall_slots(*old(m)).insert(k, value),
{
    m.map.insert(value).data().as_ffi()
}

/// `SlotMap::get`, copying the value out.
#[verifier::external_body]
pub(crate) fn wall_slots_get(m: &WallSlots, k: u64) -> (r: Option<WallDef>)
    ensures
        r == if wall_slots(*m).dom().contains(key_norm(k)) {
            Some(wall_slots(*m)[key_norm(k)])
        } else {
            None
        },
{
    m.map.get(DefaultKey::from(KeyData::from_ffi(k))).copied()
}

/// `SlotMap::contains_key`.
#[verifier::external_body]
pub(crate) fn wall_slots_contains(m: &WallSlots, k: u64) -> (r: bool)
    ensures
        r == wall_slots(*m).dom().contains(key_norm(k)),
{
    m.map.contains_key(DefaultKey::from(KeyData::from_ffi(k)))
}

/// `IndexMut` of `SlotMap`, assigning the element; it panics on a key that is not live.
#[verifier::external_body]
pub(crate) fn wall_slots_set(m: &mut WallSlots, k: u64, value: WallDef)
    requires
        wall_slots(*old(m)).dom().contains(key_norm(k)),
    ensures
        wall_slots(*final(m)) == wall_slots(*old(m)).insert(key_norm(k), value),
{
    m.map[DefaultKey::from(KeyData::from_ffi(k))] = value;
}

/// `SlotMap::remove`: the element under the key, if there is one, is taken
/// out; every other element stays.
#[verifier::external_body]
pub(crate) fn wall_slots_remove(m: &mut WallSlots, k: u64)
    ensures
        wall_slots(*final(m)) == wall_slots(*old(m)).remove(key_norm(k)),
{
    m.map.remove(DefaultKey::from(KeyData::from_ffi(k)));
}

/// `SlotMap::clone`: a map with the same keys and values.
#[verifier::external_body]
pub(crate) fn wall_slots_clone(m: &WallSlots) -> (c: WallSlots)
    ensures
        wall_slots(c) == wall_slots(*m),
{
    WallSlots { map: m.map.clone() }
}

/// `SlotMap::len`: the number of live elements.
#[verifier::external_body]
pub(crate) fn wall_slots_len(m: &WallSlots) -> (n: usize)
    ensures
        n == wall_slots(*m).len(),
{
    m.map.len()
}

/// `SlotMap::keys`: every live key once, in increasing slot order. A live
/// key's version is odd, so its 64-bit form is a key.
#[verifier::external_body]
pub(crate) fn wall_slots_keys(m: &WallSlots) -> (keys: Vec<u64>)
    ensures
        keys@.no_duplicates(),
        forall|i: int| 0 <= i < keys@.len() ==> is_key(#[trigger] keys@[i]),
        forall|i: int| 0 <= i < keys@.len() ==> wall_slots(*m).dom().contains(#[trigger] keys@[i]),
        forall|k: u64| #[trigger] wall_slots(*m).dom().contains(k) ==> keys@.contains(k),
        forall|i: int, j: int| 0 <= i < j < keys@.len() ==> slot_index(#[trigger] keys@[i]) < slot_index(#[trigger] keys@[j]),
{
    let mut keys = Vec::new();
    for key in m.map.keys() {
        keys.push(key.data().as_ffi());
    }
    keys
}

/// Contents of a slot map of rooms: the 64-bit form of each live key, mapped to its value.
pub uninterp spec fn room_slots(m: RoomSlots) -> Map<u64, RoomDef>;

/// `SlotMap::with_key`: a map with no element.
#[verifier::external_body]
pub(crate) fn room_slots_new() -> (created: RoomSlots)
    ensures
        room_slots(created).dom() == Set::<u64>::empty(),
{
    RoomSlots { map: SlotMap::with_key() }
}

/// `SlotMap::insert`: stores `value` under a key that addresses a slot no live
/// key addresses (a reused slot gets a newer version), and returns that key.
/// Below `MAX_SLOT_COUNT` elements it does not panic. The map never has
/// `u32::MAX` slots, so the slot index is below `u32::MAX`.
#[verifier::external_body]
pub(crate) fn room_slots_insert(m: &mut RoomSlots, value: RoomDef) -> (k: u64)
    requires
        room_slots(*old(m)).dom().finite(),
        room_slots(*old(m)).len() < MAX_SLOT_COUNT,
    ensures
        is_key(k),
        slot_index(k) < 0xffff_ffff,
        !room_slots(*old(m)).dom().contains(k),
        forall|j: u64| #[trigger] room_slots(*old(m)).dom().contains(j) ==> slot_index(j) != slot_index(k),
        room_slots(*final(m)) == room_slots(*old(m)).insert(k, value),
{
    m.map.insert(value).data().as_ffi()
}

/// `SlotMap::get`, copying the value out.
#[verifier::external_body]
pub(crate) fn room_slots_get(m: &RoomSlots, k: u64) -> (r: Option<RoomDef>)
    ensures
        r == if room_slots(*m).dom().contains(key_norm(k)) {
            Some(room_slots(*m)[key_norm(k)])
        } else {
            None
        },
{
    m.map.get(DefaultKey::from(KeyData::from_ffi(k))).copied()
}

/// `SlotMap::contains_key`.
#[verifier::external_body]
pub(crate) fn room_slots_contains(m: &RoomSlots, k: u64) -> (r: bool)
    ensures
        r == room_slots(*m).dom().contains(key_norm(k)),
{
    m.map.contains_key(DefaultKey::from(KeyData::from_ffi(k)))
}

/// `IndexMut` of `SlotMap`, assigning the element; it panics on a key that is not live.
#[verifier::external_body]
pub(crate) fn room_slots_set(m: &mut RoomSlots, k: u64, value: RoomDef)
    requires
        room_slots(*old(m)).dom().contains(key_norm(k)),
    ensures
        room_slots(*final(m)) == room_slots(*old(m)).insert(key_norm(k), value),
{
    m.map[DefaultKey::from(KeyData::from_ffi(k))] = value;
}

/// `SlotMap::remove`: the element under the key, if there is one, is taken
/// out; every other element stays.
#[verifier::external_body]
pub(crate) fn room_slots_remove(m: &mut RoomSlots, k: u64)
    ensures
        room_slots(*final(m)) == room_slots(*old(m)).remove(key_norm(k)),
{
    m.map.remove(DefaultKey::from(KeyData::from_ffi(k)));
}

/// `SlotMap::clone`: a map with the same keys and values.
#[verifier::external_body]
pub(crate) fn room_slots_clone(m: &RoomSlots) -> (c: RoomSlots)
    ensures
        room_slots(c) == room_slots(*m),
{
    RoomSlots { map: m.map.clone() }
}

/// `SlotMap::len`: the number of live elements.
#[verifier::external_body]
pub(crate) fn room_slots_len(m: &RoomSlots) -> (n: usize)
    ensures
        n == room_slots(*m).len(),
{
    m.map.len()
}

/// `SlotMap::keys`: every live key once, in increasing slot order. A live
/// key's version is odd, so its 64-bit form is a key.
#[verifier::external_body]
pub(crate) fn room_slots_keys(m: &RoomSlots) -> (keys: Vec<u64>)
    ensures
        keys@.no_duplicates(),
        forall|i: int| 0 <= i < keys@.len() ==> is_key(#[trigger] keys@[i]),
        forall|i: int| 0 <= i < keys@.len() ==> room_slots(*m).dom().contains(#[trigger] keys@[i]),
        forall|k: u64| #[trigger] room_slots(*m).dom().contains(k) ==> keys@.contains(k),
        forall|i: int, j: int| 0 <= i < j < keys@.len() ==> slot_index(#[trigger] keys@[i]) < slot_index(#[trigger] keys@[j]),
{
    let mut keys = Vec::new();
    for key in m.map.keys() {
        keys.push(key.data().as_ffi());
    }
    keys
}

/// Contents of a secondary map from room keys to room keys.
pub uninterp spec fn room_links(m: RoomLinks) -> Map<u64, u64>;

/// `SecondaryMap::new`: an empty map.
#[verifier::external_body]
pub(crate) fn room_links_new() -> (created: RoomLinks)
    ensures
        room_links(created).dom() == Set::<u64>::empty(),
{
    RoomLinks { map: SecondaryMap::new() }
}

/// `SecondaryMap::get`, copying the value out.
#[verifier::external_body]
pub(crate) fn room_links_get(m: &RoomLinks, k: u64) -> (r: Option<u64>)
    ensures
        r == if room_links(*m).dom().contains(key_norm(k)) {
            Some(room_links(*m)[key_norm(k)])
        } else {
            None
        },
{
    m.map.get(DefaultKey::from(KeyData::from_ffi(k))).copied()
}

/// `SecondaryMap::insert` of a key whose slot no key of the map addresses: the
/// entry is added. (A key of slot index `u32::MAX` counts as null and is not
/// inserted, and with another version of the slot present the map keeps or
/// drops entries by version; both cases are left out.)
#[verifier::external_body]
pub(crate) fn room_links_insert(m: &mut RoomLinks, k: u64, value: u64)
    requires
        is_key(k),
        slot_index(k) < 0xffff_ffff,
        forall|j: u64| #[trigger] room_links(*old(m)).dom().contains(j) ==> slot_index(j) != slot_index(k),
    ensures
        room_links(*final(m)) == room_links(*old(m)).insert(k, value),
{
    m.map.insert(DefaultKey::from(KeyData::from_ffi(k)), value);
}

/// `SecondaryMap::iter`: every entry once, in increasing slot order.
#[verifier::external_body]
pub(crate) fn room_links_entries(m: &RoomLinks) -> (entries: Vec<(u64, u64)>)
    ensures
        forall|i: int| 0 <= i < entries@.len() ==> room_links(*m).dom().contains(#[trigger] entries@[i].0)
            && room_links(*m)[entries@[i].0] == entries@[i].1,
        forall|k: u64| #[trigger] room_links(*m).dom().contains(k) ==> exists|i: int| 0 <= i < entries@.len() && #[trigger] entries@[i].0 == k,
        forall|i: int, j: int| 0 <= i < j < entries@.len() ==> slot_index(#[trigger] entries@[i].0) < slot_index(#[trigger] entries@[j].0),
{
    let mut entries = Vec::new();
    for (key, value) in m.map.iter() {
        entries.push((key.data().as_ffi(), *value));
    }
    entries
}

/// `SecondaryMap::len`: the number of entries.
#[verifier::external_body]
pub(crate) fn room_links_len(m: &RoomLinks) -> (n: usize)
    ensures
        n == room_links(*m).len(),
{
    m.map.len()
}

/// Contents of a small vector of keys, in order.
pub uninterp spec fn key_stack(v: KeyStack) -> Seq<u64>;

/// `SmallVec::new`: an empty vector.
#[verifier::external_body]
pub(crate) fn key_stack_new() -> (v: KeyStack)
    ensures
        key_stack(v) == Seq::<u64>::empty(),
{
    KeyStack { items: SmallVec::new() }
}

/// `SmallVec::push`: appends `k`; it panics only when the length would overflow.
#[verifier::external_body]
pub(crate) fn key_stack_push(v: &mut KeyStack, k: u64)
    requires
        key_stack(*old(v)).len() < usize::MAX,
    ensures
        key_stack(*final(v)) == key_stack(*old(v)).push(k),
{
    v.items.push(k);
}

/// `SmallVec::pop`: removes and returns the last element, if any.
#[verifier::external_body]
pub(crate) fn key_stack_pop(v: &mut KeyStack) -> (r: Option<u64>)
    ensures
        key_stack(*old(v)).len() == 0 ==> r is None && key_stack(*final(v)) == key_stack(*old(v)),
        key_stack(*old(v)).len() > 0 ==> r == Some(key_stack(*old(v)).last())
            && key_stack(*final(v)) == key_stack(*old(v)).drop_last(),
{
    v.items.pop()
}

} // verus!
