//! World layout as a half-edge structure: rooms are closed loops of walls, each
//! wall starts at a vertex, and a wall may be connected to a wall of another
//! room, which makes a passage between the two rooms.
//!
//! The model of a [`WorldGeometry`] is four maps: vertex key to [`VertexDef`],
//! wall key to [`WallDef`], room key to [`RoomDef`], and room key to the
//! sequence of its walls in loop order, starting at the room's first wall.
use vstd::prelude::*;
use crate::defs::{Color, RoomDef, Vec2i, VertexDef, WallDef};
use crate::ids::{is_key, lemma_slot_index_not_null, lemma_wall_id_eq, slot_index, RoomId, VertexId, WallId, NULL_KEY};
use crate::geometry_lemmas::{
    left_loop, lemma_split_room_keys, split_link_facts, lemma_split_room_finish, lemma_split_room_rooms, lemma_split_room_setup,
    lemma_split_room_vertices, lemma_split_room_walls, split_off_loop, split_room_facts,
    connection_after, connections_ok, lemma_connection_after_symmetric, lemma_same_layout_wf,
    lemma_wf_connections, lemma_insert_room_wf, lemma_push_fresh, lemma_split_wall_facts, lemma_split_wall_keys,
    lemma_split_wall_rooms, lemma_split_wall_vertices, lemma_split_wall_walls, lemma_union_len,
    new_wall_facts,
};
use crate::slots::{
    MAX_SLOT_COUNT, RoomSlots, VertexSlots, WallSlots, room_slots, room_slots_clone, room_slots_contains, room_slots_get,
    vertex_slots_clone, wall_slots_clone, room_slots_remove, vertex_slots_remove, wall_slots_remove,
    room_slots_insert, room_slots_keys, room_slots_len, room_slots_new, room_slots_set, vertex_slots,
    vertex_slots_contains, vertex_slots_get, vertex_slots_insert, vertex_slots_keys, vertex_slots_len,
    vertex_slots_new, vertex_slots_set, wall_slots, wall_slots_contains, wall_slots_get, wall_slots_insert,
    wall_slots_keys, wall_slots_len, wall_slots_new, wall_slots_set,
};

verus! {

/// Index after `i` in a loop of length `n`.
pub open spec fn succ(i: int, n: int) -> int {
    if i + 1 < n {
        i + 1
    } else {
        0
    }
}

/// Index before `i` in a loop of length `n`.
pub open spec fn pred(i: int, n: int) -> int {
    if i > 0 {
        i - 1
    } else {
        n - 1
    }
}

/// Errors of geometry edits and checks.
#[derive(Clone, Copy, PartialEq, Eq, Structural, Debug)]
pub enum GeometryError {
    /// A wall cannot be connected to itself.
    SelfConnection,
    /// The vertex has more than one outgoing wall.
    SharedVertex,
    /// A room split was asked for with the same wall as both ends.
    FlatRoom,
    /// A room split was asked for with walls of two different rooms.
    DifferentRooms,
    /// A room split was asked for that would take the whole loop.
    WholeLoop,
    /// A handle does not name an element of the geometry.
    InvalidId,
    /// A room's walls do not form a loop.
    NotALoop,
    /// A vertex's outgoing wall does not start at it.
    VertexMismatch,
    /// The turn from the first wall to the second is concave.
    Concave(WallId, WallId),
    /// Splitting concave rooms did not finish within its step budget.
    StepLimit,
    /// A room could not be cut into convex pieces.
    FullyConcave(WallId),
    /// The last room of a world cannot be removed.
    LastRoom,
    /// A change recorded for undo would alter how elements are linked.
    LinksChanged,
    /// The item is no part of the geometry: objects are moved with the world's
    /// objects, not with its rooms, walls and vertices.
    NotInGeometry,
}

/// Describes the world's layout via a half-edge structure.
pub struct WorldGeometry {
    vertices: VertexSlots,
    walls: WallSlots,
    rooms: RoomSlots,
    loops: Ghost<Map<u64, Seq<u64>>>,
}

impl WorldGeometry {
    /// Takes wall `w` out and changes nothing else; the caller makes the
    /// geometry whole again.
    pub(crate) fn remove_wall_entry(&mut self, w: WallId)
        ensures
            final(self).wall_map() == old(self).wall_map().remove(w.key()),
            final(self).vertex_map() == old(self).vertex_map(),
            final(self).room_map() == old(self).room_map(),
            final(self).room_loops() == old(self).room_loops(),
    {
        wall_slots_remove(&mut self.walls, w.raw());
    }

    /// Takes vertex `v` out and changes nothing else; the caller makes the
    /// geometry whole again.
    pub(crate) fn remove_vertex_entry(&mut self, v: VertexId)
        ensures
            final(self).vertex_map() == old(self).vertex_map().remove(v.key()),
            final(self).wall_map() == old(self).wall_map(),
            final(self).room_map() == old(self).room_map(),
            final(self).room_loops() == old(self).room_loops(),
    {
        vertex_slots_remove(&mut self.vertices, v.raw());
    }

    /// Takes room `r` and its loop out and changes nothing else; the caller
    /// makes the geometry whole again.
    pub(crate) fn remove_room_entry(&mut self, r: RoomId)
        ensures
            final(self).room_map() == old(self).room_map().remove(r.key()),
            final(self).room_loops() == old(self).room_loops().remove(r.key()),
            final(self).wall_map() == old(self).wall_map(),
            final(self).vertex_map() == old(self).vertex_map(),
    {
        room_slots_remove(&mut self.rooms, r.raw());
        self.loops = Ghost(self.loops@.remove(r.key()));
    }
}

impl WorldGeometry {
    pub closed spec fn vertex_map(&self) -> Map<u64, VertexDef> {
        vertex_slots(self.vertices)
    }

    pub closed spec fn wall_map(&self) -> Map<u64, WallDef> {
        wall_slots(self.walls)
    }

    pub closed spec fn room_map(&self) -> Map<u64, RoomDef> {
        room_slots(self.rooms)
    }

    /// For each room, its walls in loop order, starting at its first wall.
    pub closed spec fn room_loops(&self) -> Map<u64, Seq<u64>> {
        self.loops@
    }

    pub open spec fn has_vertex(&self, v: u64) -> bool {
        self.vertex_map().dom().contains(v)
    }

    pub open spec fn has_wall(&self, w: u64) -> bool {
        self.wall_map().dom().contains(w)
    }

    pub open spec fn has_room(&self, r: u64) -> bool {
        self.room_map().dom().contains(r)
    }

    pub open spec fn wall(&self, w: u64) -> WallDef {
        self.wall_map()[w]
    }

    pub open spec fn vertex(&self, v: u64) -> VertexDef {
        self.vertex_map()[v]
    }

    pub open spec fn room(&self, r: u64) -> RoomDef {
        self.room_map()[r]
    }

    pub open spec fn room_loop(&self, r: u64) -> Seq<u64> {
        self.room_loops()[r]
    }

    /// The key of the wall after `w` in its room.
    pub open spec fn next_of(&self, w: u64) -> u64 {
        self.wall(w).next_wall.key()
    }

    pub open spec fn prev_of(&self, w: u64) -> u64 {
        self.wall(w).prev_wall.key()
    }

    pub open spec fn room_of(&self, w: u64) -> u64 {
        self.wall(w).room.key()
    }

    pub open spec fn wall_ok(&self, w: u64) -> bool {
        let d = self.wall(w);
        &&& self.has_vertex(d.source_vertex.key())
        &&& self.has_room(d.room.key())
        &&& self.has_wall(d.next_wall.key())
        &&& self.has_wall(d.prev_wall.key())
        &&& self.prev_of(d.next_wall.key()) == w
        &&& self.next_of(d.prev_wall.key()) == w
        &&& self.room_loops().dom().contains(d.room.key())
        &&& self.room_loop(d.room.key()).contains(w)
        &&& (d.connected_wall matches Some(t) ==> {
            &&& self.has_wall(t.key())
            &&& t.key() != w
            &&& self.wall(t.key()).connected_wall matches Some(u)
            &&& u.key() == w
        })
    }

    pub open spec fn room_ok(&self, r: u64) -> bool {
        let s = self.room_loop(r);
        &&& self.room_loops().dom().contains(r)
        &&& s.len() > 0
        &&& s.no_duplicates()
        &&& s[0] == self.room(r).first_wall.key()
        &&& forall|i: int|
            0 <= i < s.len() ==> {
                &&& self.has_wall(#[trigger] s[i])
                &&& self.room_of(s[i]) == r
                &&& self.next_of(s[i]) == s[succ(i, s.len() as int)]
            }
    }

    pub open spec fn vertex_ok(&self, v: u64) -> bool {
        let o = self.vertex(v).outgoing_wall.key();
        &&& self.has_wall(o)
        &&& self.wall(o).source_vertex.key() == v
    }

    /// Well-formedness: every handle stored names an element, `next` and `prev`
    /// are inverse, each room's walls form one loop, each wall lies in the loop
    /// of its room, connections are symmetric, and each vertex's outgoing wall
    /// starts at it.
    pub open spec fn wf(&self) -> bool {
        &&& self.keys_wf()
        &&& self.walls_wf()
        &&& self.rooms_wf()
        &&& self.vertices_wf()
    }

    #[verifier::opaque]
    pub open spec fn keys_wf(&self) -> bool {
        &&& self.vertex_map().dom().finite()
        &&& self.wall_map().dom().finite()
        &&& self.room_map().dom().finite()
        &&& self.vertex_map().len() < MAX_SLOT_COUNT
        &&& self.wall_map().len() < MAX_SLOT_COUNT
        &&& self.room_map().len() < MAX_SLOT_COUNT
        &&& forall|k: u64| #[trigger] self.has_vertex(k) ==> is_key(k)
        &&& forall|k: u64| #[trigger] self.has_wall(k) ==> is_key(k)
        &&& forall|k: u64| #[trigger] self.has_room(k) ==> is_key(k)
        &&& forall|a: u64, b: u64|
            #[trigger] self.has_room(a) && #[trigger] self.has_room(b) && a != b ==> slot_index(a)
                != slot_index(b)
        &&& self.room_loops().dom() == self.room_map().dom()
    }

    #[verifier::opaque]
    pub open spec fn walls_wf(&self) -> bool {
        forall|w: u64| #[trigger] self.has_wall(w) ==> self.wall_ok(w)
    }

    #[verifier::opaque]
    pub open spec fn rooms_wf(&self) -> bool {
        forall|r: u64| #[trigger] self.has_room(r) ==> self.room_ok(r)
    }

    #[verifier::opaque]
    pub open spec fn vertices_wf(&self) -> bool {
        forall|v: u64| #[trigger] self.has_vertex(v) ==> self.vertex_ok(v)
    }

    /// Every vertex, wall and room of `g0`, and every room's loop, is still here unchanged.
    pub open spec fn extends(&self, g0: &WorldGeometry) -> bool {
        &&& forall|w: u64| #[trigger] g0.has_wall(w) ==> self.has_wall(w) && self.wall(w) == g0.wall(w)
        &&& forall|v: u64| #[trigger] g0.has_vertex(v) ==> self.has_vertex(v) && self.vertex(v) == g0.vertex(v)
        &&& forall|r: u64| #[trigger] g0.has_room(r) ==> self.has_room(r) && self.room(r) == g0.room(r)
            && self.room_loop(r) == g0.room_loop(r)
    }

    pub open spec fn num_vertices_spec(&self) -> nat {
        self.vertex_map().len()
    }

    pub open spec fn num_walls_spec(&self) -> nat {
        self.wall_map().len()
    }

    pub open spec fn num_rooms_spec(&self) -> nat {
        self.room_map().len()
    }

    /// An empty geometry.
    pub fn new() -> (g: WorldGeometry)
        ensures
            g.wf(),
            g.vertex_map().dom() == Set::<u64>::empty(),
            g.wall_map().dom() == Set::<u64>::empty(),
            g.room_map().dom() == Set::<u64>::empty(),
    {
        let g = WorldGeometry {
            vertices: vertex_slots_new(),
            walls: wall_slots_new(),
            rooms: room_slots_new(),
            loops: Ghost(Map::empty()),
        };
        assert(g.room_loops().dom() =~= g.room_map().dom());
        proof {
            reveal(WorldGeometry::keys_wf);
            reveal(WorldGeometry::walls_wf);
            reveal(WorldGeometry::rooms_wf);
            reveal(WorldGeometry::vertices_wf);
        }
        g
    }

    /// A copy of the geometry, with the same handles.
    pub fn duplicate(&self) -> (g: WorldGeometry)
        ensures
            g.vertex_map() == self.vertex_map(),
            g.wall_map() == self.wall_map(),
            g.room_map() == self.room_map(),
            g.room_loops() == self.room_loops(),
            self.wf() ==> g.wf(),
    {
        let g = WorldGeometry {
            vertices: vertex_slots_clone(&self.vertices),
            walls: wall_slots_clone(&self.walls),
            rooms: room_slots_clone(&self.rooms),
            loops: Ghost(self.loops@),
        };
        proof {
            reveal(WorldGeometry::keys_wf);
            reveal(WorldGeometry::walls_wf);
            reveal(WorldGeometry::rooms_wf);
            reveal(WorldGeometry::vertices_wf);
            if self.wf() {
                assert forall|k: u64| #[trigger] g.has_vertex(k) implies is_key(k) by {
                    assert(self.has_vertex(k));
                }
                assert forall|k: u64| #[trigger] g.has_wall(k) implies is_key(k) by {
                    assert(self.has_wall(k));
                }
                assert forall|k: u64| #[trigger] g.has_room(k) implies is_key(k) by {
                    assert(self.has_room(k));
                }
                assert forall|a: u64, b: u64|
                    #[trigger] g.has_room(a) && #[trigger] g.has_room(b) && a != b implies slot_index(a) != slot_index(b) by {
                    assert(self.has_room(a) && self.has_room(b));
                }
                assert(g.keys_wf());
                assert forall|w: u64| #[trigger] g.has_wall(w) implies g.wall_ok(w) by {
                    assert(self.has_wall(w));
                    assert(self.wall_ok(w));
                }
                assert forall|r: u64| #[trigger] g.has_room(r) implies g.room_ok(r) by {
                    assert(self.has_room(r));
                    assert(self.room_ok(r));
                }
                assert forall|v: u64| #[trigger] g.has_vertex(v) implies g.vertex_ok(v) by {
                    assert(self.has_vertex(v));
                    assert(self.vertex_ok(v));
                }
            }
        }
        g
    }

    /// Number of vertices.
    pub fn num_vertices(&self) -> (n: usize)
        ensures
            n == self.num_vertices_spec(),
    {
        vertex_slots_len(&self.vertices)
    }

    /// Number of walls.
    pub fn num_walls(&self) -> (n: usize)
        ensures
            n == self.num_walls_spec(),
    {
        wall_slots_len(&self.walls)
    }

    /// Number of rooms.
    pub fn num_rooms(&self) -> (n: usize)
        ensures
            n == self.num_rooms_spec(),
    {
        room_slots_len(&self.rooms)
    }

    /// Every vertex handle, each once.
    pub fn vertex_ids(&self) -> (ids: Vec<VertexId>)
        ensures
            ids@.map_values(|v: VertexId| v.key()).no_duplicates(),
            forall|i: int| 0 <= i < ids@.len() ==> self.has_vertex(#[trigger] ids@[i].key()),
            forall|k: u64| #[trigger] self.has_vertex(k) ==> exists|i: int| 0 <= i < ids@.len() && #[trigger] ids@[i].key() == k,
            forall|i: int, j: int| 0 <= i < j < ids@.len() ==> slot_index(#[trigger] ids@[i].key()) < slot_index(#[trigger] ids@[j].key()),
    {
        proof {
            reveal(WorldGeometry::keys_wf);
        }
        let keys = vertex_slots_keys(&self.vertices);
        let mut ids: Vec<VertexId> = Vec::new();
        let mut i: usize = 0;
        while i < keys.len()
            invariant
                forall|j: int| 0 <= j < keys@.len() ==> is_key(#[trigger] keys@[j]),
                0 <= i <= keys.len(),
                keys@.no_duplicates(),
                forall|j: int| 0 <= j < keys@.len() ==> self.has_vertex(#[trigger] keys@[j]),
                ids@.len() == i,
                forall|j: int| 0 <= j < i ==> #[trigger] ids@[j].key() == keys@[j],
            decreases keys.len() - i,
        {
            let k = keys[i];
            assert(self.has_vertex(keys@[i as int]));
            ids.push(VertexId::from_key(k));
            i = i + 1;
        }
        assert(ids@.map_values(|v: VertexId| v.key()) =~= keys@);
        assert forall|i: int, j: int| 0 <= i < j < ids@.len() implies slot_index(#[trigger] ids@[i].key()) < slot_index(#[trigger] ids@[j].key()) by {
            assert(ids@[i].key() == keys@[i] && ids@[j].key() == keys@[j]);
        }
        assert forall|k: u64| #[trigger] self.has_vertex(k) implies exists|i: int| 0 <= i < ids@.len() && #[trigger] ids@[i].key() == k by {
            assert(keys@.contains(k));
            let j = choose|j: int| 0 <= j < keys@.len() && keys@[j] == k;
            assert(ids@[j].key() == k);
        }
        ids
    }

    /// Every wall handle, each once.
    pub fn wall_ids(&self) -> (ids: Vec<WallId>)
        ensures
            ids@.map_values(|w: WallId| w.key()).no_duplicates(),
            forall|i: int| 0 <= i < ids@.len() ==> self.has_wall(#[trigger] ids@[i].key()),
            forall|k: u64| #[trigger] self.has_wall(k) ==> exists|i: int| 0 <= i < ids@.len() && #[trigger] ids@[i].key() == k,
            forall|i: int, j: int| 0 <= i < j < ids@.len() ==> slot_index(#[trigger] ids@[i].key()) < slot_index(#[trigger] ids@[j].key()),
    {
        proof {
            reveal(WorldGeometry::keys_wf);
        }
        let keys = wall_slots_keys(&self.walls);
        let mut ids: Vec<WallId> = Vec::new();
        let mut i: usize = 0;
        while i < keys.len()
            invariant
                forall|j: int| 0 <= j < keys@.len() ==> is_key(#[trigger] keys@[j]),
                0 <= i <= keys.len(),
                keys@.no_duplicates(),
                forall|j: int| 0 <= j < keys@.len() ==> self.has_wall(#[trigger] keys@[j]),
                ids@.len() == i,
                forall|j: int| 0 <= j < i ==> #[trigger] ids@[j].key() == keys@[j],
            decreases keys.len() - i,
        {
            let k = keys[i];
            assert(self.has_wall(keys@[i as int]));
            ids.push(WallId::from_key(k));
            i = i + 1;
        }
        assert(ids@.map_values(|w: WallId| w.key()) =~= keys@);
        assert forall|i: int, j: int| 0 <= i < j < ids@.len() implies slot_index(#[trigger] ids@[i].key()) < slot_index(#[trigger] ids@[j].key()) by {
            assert(ids@[i].key() == keys@[i] && ids@[j].key() == keys@[j]);
        }
        assert forall|k: u64| #[trigger] self.has_wall(k) implies exists|i: int| 0 <= i < ids@.len() && #[trigger] ids@[i].key() == k by {
            assert(keys@.contains(k));
            let j = choose|j: int| 0 <= j < keys@.len() && keys@[j] == k;
            assert(ids@[j].key() == k);
        }
        ids
    }

    /// Every room handle, each once.
    pub fn room_ids(&self) -> (ids: Vec<RoomId>)
        ensures
            ids@.map_values(|r: RoomId| r.key()).no_duplicates(),
            forall|i: int| 0 <= i < ids@.len() ==> self.has_room(#[trigger] ids@[i].key()),
            forall|k: u64| #[trigger] self.has_room(k) ==> exists|i: int| 0 <= i < ids@.len() && #[trigger] ids@[i].key() == k,
            forall|i: int, j: int| 0 <= i < j < ids@.len() ==> slot_index(#[trigger] ids@[i].key()) < slot_index(#[trigger] ids@[j].key()),
    {
        proof {
            reveal(WorldGeometry::keys_wf);
        }
        let keys = room_slots_keys(&self.rooms);
        let mut ids: Vec<RoomId> = Vec::new();
        let mut i: usize = 0;
        while i < keys.len()
            invariant
                forall|j: int| 0 <= j < keys@.len() ==> is_key(#[trigger] keys@[j]),
                0 <= i <= keys.len(),
                keys@.no_duplicates(),
                forall|j: int| 0 <= j < keys@.len() ==> self.has_room(#[trigger] keys@[j]),
                ids@.len() == i,
                forall|j: int| 0 <= j < i ==> #[trigger] ids@[j].key() == keys@[j],
            decreases keys.len() - i,
        {
            let k = keys[i];
            assert(self.has_room(keys@[i as int]));
            ids.push(RoomId::from_key(k));
            i = i + 1;
        }
        assert(ids@.map_values(|r: RoomId| r.key()) =~= keys@);
        assert forall|i: int, j: int| 0 <= i < j < ids@.len() implies slot_index(#[trigger] ids@[i].key()) < slot_index(#[trigger] ids@[j].key()) by {
            assert(ids@[i].key() == keys@[i] && ids@[j].key() == keys@[j]);
        }
        assert forall|k: u64| #[trigger] self.has_room(k) implies exists|i: int| 0 <= i < ids@.len() && #[trigger] ids@[i].key() == k by {
            assert(keys@.contains(k));
            let j = choose|j: int| 0 <= j < keys@.len() && keys@[j] == k;
            assert(ids@[j].key() == k);
        }
        ids
    }
}

impl WorldGeometry {
    /// Everything but the wall map is as in `other`.
    pub open spec fn same_but_walls(&self, other: &WorldGeometry) -> bool {
        &&& self.vertex_map() == other.vertex_map()
        &&& self.room_map() == other.room_map()
        &&& self.room_loops() == other.room_loops()
    }

    fn get_wall_raw(&self, w: u64) -> (d: WallDef)
        requires
            self.has_wall(w),
            is_key(w),
        ensures
            d == self.wall(w),
    {
        match wall_slots_get(&self.walls, w) {
            Some(d) => d,
            None => {
                assert(false);
                WallDef::default()
            },
        }
    }

    fn get_vertex_raw(&self, v: u64) -> (d: VertexDef)
        requires
            self.has_vertex(v),
            is_key(v),
        ensures
            d == self.vertex(v),
    {
        match vertex_slots_get(&self.vertices, v) {
            Some(d) => d,
            None => {
                assert(false);
                VertexDef::default()
            },
        }
    }

    fn get_room_raw(&self, r: u64) -> (d: RoomDef)
        requires
            self.has_room(r),
            is_key(r),
        ensures
            d == self.room(r),
    {
        match room_slots_get(&self.rooms, r) {
            Some(d) => d,
            None => {
                assert(false);
                RoomDef::default()
            },
        }
    }

    fn set_wall_raw(&mut self, w: u64, d: WallDef)
        requires
            old(self).has_wall(w),
            is_key(w),
        ensures
            final(self).wall_map() == old(self).wall_map().insert(w, d),
            final(self).same_but_walls(old(self)),
    {
        wall_slots_set(&mut self.walls, w, d);
    }

    fn set_vertex_raw(&mut self, v: u64, d: VertexDef)
        requires
            old(self).has_vertex(v),
            is_key(v),
        ensures
            final(self).vertex_map() == old(self).vertex_map().insert(v, d),
            final(self).wall_map() == old(self).wall_map(),
            final(self).room_map() == old(self).room_map(),
            final(self).room_loops() == old(self).room_loops(),
    {
        vertex_slots_set(&mut self.vertices, v, d);
    }

    fn set_room_raw(&mut self, r: u64, d: RoomDef)
        requires
            old(self).has_room(r),
            is_key(r),
        ensures
            final(self).room_map() == old(self).room_map().insert(r, d),
            final(self).wall_map() == old(self).wall_map(),
            final(self).vertex_map() == old(self).vertex_map(),
            final(self).room_loops() == old(self).room_loops(),
    {
        room_slots_set(&mut self.rooms, r, d);
    }

    /// Adds a room whose walls run through `positions` in order, closing the loop
    /// back to the first position. Each position gets a vertex of its own; the
    /// room's first wall starts at `positions[0]`.
    #[verifier::rlimit(50)]
    pub fn insert_room_from_positions(&mut self, positions: &[Vec2i]) -> (room: RoomId)
        requires
            old(self).wf(),
            positions@.len() > 0,
            old(self).num_vertices_spec() + positions@.len() < MAX_SLOT_COUNT,
            old(self).num_walls_spec() + positions@.len() < MAX_SLOT_COUNT,
            old(self).num_rooms_spec() + 1 < MAX_SLOT_COUNT,
        ensures
            final(self).wf(),
            !old(self).has_room(room.key()),
            final(self).room_map().dom() == old(self).room_map().dom().insert(room.key()),
            final(self).num_rooms_spec() == old(self).num_rooms_spec() + 1,
            final(self).num_walls_spec() == old(self).num_walls_spec() + positions@.len(),
            final(self).num_vertices_spec() == old(self).num_vertices_spec() + positions@.len(),
            final(self).room_loop(room.key()).len() == positions@.len(),
            forall|i: int|
                0 <= i < positions@.len() ==> {
                    let w = #[trigger] final(self).room_loop(room.key())[i];
                    &&& !old(self).has_wall(w)
                    &&& final(self).wall(w).connected_wall is None
                    &&& final(self).wall(w).color == Color::white_spec()
                    &&& final(self).wall(w).vertical_offset == 0
                    &&& final(self).wall(w).horizontal_offset == 0
                    &&& !old(self).has_vertex(final(self).wall(w).source_vertex.key())
                    &&& final(self).vertex(final(self).wall(w).source_vertex.key()).position
                        == positions@[i]
                },
            final(self).room(room.key()).floor_color == Color::white_spec(),
            final(self).room(room.key()).ceiling_color == Color::white_spec(),
            final(self).room(room.key()).height == 16,
            final(self).extends(old(self)),
    {
        let ghost g0 = *old(self);
        proof {
            g0.lemma_wf_basics();
        }
        let room_key = room_slots_insert(&mut self.rooms, RoomDef::default());
        let ghost room_def0 = self.room(room_key);
        let n = positions.len();
        let mut wall_keys: Vec<u64> = Vec::new();
        let mut vertex_keys: Vec<u64> = Vec::new();
        let ghost mut nw: Map<u64, WallDef> = Map::empty();
        let ghost mut nv: Map<u64, VertexDef> = Map::empty();
        let mut i: usize = 0;
        while i < n
            invariant
                n == positions@.len(),
                0 <= i <= n,
                is_key(room_key),
                self.room_map() == g0.room_map().insert(room_key, room_def0),
                self.room_loops() == g0.room_loops(),
                self.wall_map() == g0.wall_map().union_prefer_right(nw),
                self.vertex_map() == g0.vertex_map().union_prefer_right(nv),
                g0.wall_map().dom().finite(),
                g0.vertex_map().dom().finite(),
                nw.dom().finite(),
                nv.dom().finite(),
                g0.num_vertices_spec() + n < MAX_SLOT_COUNT,
                g0.num_walls_spec() + n < MAX_SLOT_COUNT,
                nw.dom().disjoint(g0.wall_map().dom()),
                nv.dom().disjoint(g0.vertex_map().dom()),
                wall_keys@.len() == i,
                vertex_keys@.len() == i,
                nw.dom() == wall_keys@.to_set(),
                nv.dom() == vertex_keys@.to_set(),
                wall_keys@.no_duplicates(),
                vertex_keys@.no_duplicates(),
                forall|j: int| 0 <= j < i ==> new_wall_facts(nw, nv, #[trigger] wall_keys@[j], vertex_keys@[j], room_key, positions@[j]),
            decreases n - i,
        {
            let position = positions[i];
            proof {
                assert(self.vertex_map().dom() =~= g0.vertex_map().dom() + vertex_keys@.to_set());
                assert(self.wall_map().dom() =~= g0.wall_map().dom() + wall_keys@.to_set());
                lemma_union_len(g0.vertex_map().dom(), vertex_keys@);
                lemma_union_len(g0.wall_map().dom(), wall_keys@);
            }
            let vertex_key = vertex_slots_insert(&mut self.vertices, VertexDef::at(position));
            let mut wall_def = WallDef::default();
            wall_def.source_vertex = VertexId::from_key(vertex_key);
            wall_def.room = RoomId::from_key(room_key);
            let wall_key = wall_slots_insert(&mut self.walls, wall_def);
            let mut vertex_def = VertexDef::at(position);
            vertex_def.outgoing_wall = WallId::from_key(wall_key);
            vertex_slots_set(&mut self.vertices, vertex_key, vertex_def);
            proof {
                lemma_push_fresh(wall_keys@, wall_key);
                lemma_push_fresh(vertex_keys@, vertex_key);
                assert forall|j: int| 0 <= j < i implies #[trigger] wall_keys@[j] != wall_key && vertex_keys@[j] != vertex_key by {
                    assert(nw.dom().contains(wall_keys@[j]));
                    assert(nv.dom().contains(vertex_keys@[j]));
                }
                nw = nw.insert(wall_key, wall_def);
                nv = nv.insert(vertex_key, vertex_def);
                assert(self.wall_map() =~= g0.wall_map().union_prefer_right(nw));
                assert(self.vertex_map() =~= g0.vertex_map().union_prefer_right(nv));
            }
            wall_keys.push(wall_key);
            vertex_keys.push(vertex_key);
            proof {
                assert(nw.dom() =~= wall_keys@.to_set());
                assert(nv.dom() =~= vertex_keys@.to_set());
                assert forall|j: int| 0 <= j < i + 1 implies new_wall_facts(nw, nv, #[trigger] wall_keys@[j], vertex_keys@[j], room_key, positions@[j]) by {
                    if j < i {
                        assert(wall_keys@[j] == wall_keys@.drop_last()[j]);
                    }
                }
            }
            i = i + 1;
        }
        // Link the new walls into a loop.
        let mut index: usize = 0;
        while index < n
            invariant
                n == positions@.len(),
                n > 0,
                0 <= index <= n,
                is_key(room_key),
                self.room_map() == g0.room_map().insert(room_key, room_def0),
                self.room_loops() == g0.room_loops(),
                self.wall_map() == g0.wall_map().union_prefer_right(nw),
                self.vertex_map() == g0.vertex_map().union_prefer_right(nv),
                nw.dom() == wall_keys@.to_set(),
                nv.dom() == vertex_keys@.to_set(),
                wall_keys@.len() == n,
                vertex_keys@.len() == n,
                wall_keys@.no_duplicates(),
                vertex_keys@.no_duplicates(),
                g0.wall_map().dom().finite(),
                g0.vertex_map().dom().finite(),
                nw.dom().disjoint(g0.wall_map().dom()),
                nv.dom().disjoint(g0.vertex_map().dom()),
                forall|j: int| 0 <= j < n ==> new_wall_facts(nw, nv, #[trigger] wall_keys@[j], vertex_keys@[j], room_key, positions@[j]),
                forall|j: int|
                    0 <= j < index ==> {
                        &&& nw[#[trigger] wall_keys@[j]].next_wall.key() == wall_keys@[succ(j, n as int)]
                        &&& nw[wall_keys@[j]].prev_wall.key() == wall_keys@[pred(j, n as int)]
                    },
            decreases n - index,
        {
            let next_index = if index + 1 < n { index + 1 } else { 0 };
            let prev_index = if index > 0 { index - 1 } else { n - 1 };
            let key = wall_keys[index];
            proof {
                assert(nw.dom().contains(key));
                assert(new_wall_facts(nw, nv, wall_keys@[index as int], vertex_keys@[index as int], room_key, positions@[index as int]));
            }
            let mut wall_def = self.get_wall_raw(key);
            wall_def.next_wall = WallId::from_key(wall_keys[next_index]);
            wall_def.prev_wall = WallId::from_key(wall_keys[prev_index]);
            self.set_wall_raw(key, wall_def);
            proof {
                assert forall|j: int| 0 <= j < n && j != index implies #[trigger] wall_keys@[j] != key by {
                    assert(wall_keys@[index as int] == key);
                }
                nw = nw.insert(key, wall_def);
                assert(self.wall_map() =~= g0.wall_map().union_prefer_right(nw));
                assert(nw.dom() =~= wall_keys@.to_set());
            }
            index = index + 1;
        }
        proof {
            assert(self.vertex_map().dom() =~= g0.vertex_map().dom() + vertex_keys@.to_set());
            assert(self.wall_map().dom() =~= g0.wall_map().dom() + wall_keys@.to_set());
            lemma_union_len(g0.vertex_map().dom(), vertex_keys@);
            lemma_union_len(g0.wall_map().dom(), wall_keys@);
        }
        let mut room_def = self.get_room_raw(room_key);
        room_def.first_wall = WallId::from_key(wall_keys[0]);
        self.set_room_raw(room_key, room_def);
        self.loops = Ghost(self.loops@.insert(room_key, wall_keys@));
        proof {
            assert(self.room_map() =~= g0.room_map().insert(room_key, room_def));
            lemma_insert_room_wf(*self, g0, room_key, room_def, nw, nv, wall_keys@, vertex_keys@, positions@);
        }
        RoomId::from_key(room_key)
    }

    /// The parts of well-formedness that hold of every key.
    pub proof fn lemma_wf_basics(&self)
        requires
            self.wf(),
        ensures
            self.vertex_map().dom().finite(),
            self.wall_map().dom().finite(),
            self.room_map().dom().finite(),
            self.vertex_map().len() < MAX_SLOT_COUNT,
            self.wall_map().len() < MAX_SLOT_COUNT,
            self.room_map().len() < MAX_SLOT_COUNT,
            forall|k: u64| #[trigger] self.has_vertex(k) ==> is_key(k),
            forall|k: u64| #[trigger] self.has_wall(k) ==> is_key(k),
            forall|k: u64| #[trigger] self.has_room(k) ==> is_key(k),
            self.room_loops().dom() == self.room_map().dom(),
    {
        reveal(WorldGeometry::keys_wf);
    }
}



/// Corner `i` of the square room of [`WorldGeometry::new_square`]: going round
/// from the corner at minus half the size on both axes, up, right, then down.
pub open spec fn square_corner(size: u32, i: int) -> Vec2i {
    let h = (size / 2) as i32;
    let m = (-h) as i32;
    if i == 0 {
        Vec2i { x: m, y: m }
    } else if i == 1 {
        Vec2i { x: m, y: h }
    } else if i == 2 {
        Vec2i { x: h, y: h }
    } else {
        Vec2i { x: h, y: m }
    }
}

impl WorldGeometry {
    /// A square room centered on the origin, with sides `size` long (rounded
    /// down to even), with default colors and height and no connection.
    pub fn new_square(size: u32) -> (g: WorldGeometry)
        ensures
            g.wf(),
            g.num_rooms_spec() == 1,
            g.num_walls_spec() == 4,
            g.num_vertices_spec() == 4,
            exists|r: u64|
                #![trigger g.room_loop(r)]
                g.has_room(r) && g.room_loop(r).len() == 4 && forall|i: int|
                    0 <= i < 4 ==> {
                        let w = #[trigger] g.room_loop(r)[i];
                        &&& g.vertex(g.wall(w).source_vertex.key()).position == square_corner(size, i)
                        &&& g.wall(w).connected_wall is None
                    },
    {
        let mut g = WorldGeometry::new();
        let half_size = (size / 2) as i32;
        let positions = [
            Vec2i::new(-half_size, -half_size),
            Vec2i::new(-half_size, half_size),
            Vec2i::new(half_size, half_size),
            Vec2i::new(half_size, -half_size),
        ];
        proof {
            assert(g.vertex_map().dom().len() == 0);
            assert(g.wall_map().dom().len() == 0);
            assert(g.room_map().dom().len() == 0);
        }
        let room = g.insert_room_from_positions(&positions);
        proof {
            assert forall|i: int| 0 <= i < 4 implies positions@[i] == square_corner(size, i) by {}
            assert(g.has_room(room.key()));
        }
        g
    }

    /// Whether `vertex` names a vertex of this geometry.
    pub fn contains_vertex(&self, vertex: VertexId) -> (b: bool)
        ensures
            b == self.has_vertex(vertex.key()),
    {
        vertex_slots_contains(&self.vertices, vertex.raw())
    }

    /// Whether `wall` names a wall of this geometry.
    pub fn contains_wall(&self, wall: WallId) -> (b: bool)
        ensures
            b == self.has_wall(wall.key()),
    {
        wall_slots_contains(&self.walls, wall.raw())
    }

    /// Whether `room` names a room of this geometry.
    pub fn contains_room(&self, room: RoomId) -> (b: bool)
        ensures
            b == self.has_room(room.key()),
    {
        room_slots_contains(&self.rooms, room.raw())
    }

    pub fn vertex_def(&self, vertex: VertexId) -> (d: VertexDef)
        requires
            self.has_vertex(vertex.key()),
        ensures
            d == self.vertex(vertex.key()),
    {
        self.get_vertex_raw(vertex.raw())
    }

    pub fn wall_def(&self, wall: WallId) -> (d: WallDef)
        requires
            self.has_wall(wall.key()),
        ensures
            d == self.wall(wall.key()),
    {
        self.get_wall_raw(wall.raw())
    }

    pub fn room_def(&self, room: RoomId) -> (d: RoomDef)
        requires
            self.has_room(room.key()),
        ensures
            d == self.room(room.key()),
    {
        self.get_room_raw(room.raw())
    }

    pub fn try_vertex_def(&self, vertex: VertexId) -> (d: Option<VertexDef>)
        ensures
            d == if self.has_vertex(vertex.key()) {
                Some(self.vertex(vertex.key()))
            } else {
                None
            },
    {
        vertex_slots_get(&self.vertices, vertex.raw())
    }

    pub fn try_wall_def(&self, wall: WallId) -> (d: Option<WallDef>)
        ensures
            d == if self.has_wall(wall.key()) {
                Some(self.wall(wall.key()))
            } else {
                None
            },
    {
        wall_slots_get(&self.walls, wall.raw())
    }

    pub fn try_room_def(&self, room: RoomId) -> (d: Option<RoomDef>)
        ensures
            d == if self.has_room(room.key()) {
                Some(self.room(room.key()))
            } else {
                None
            },
    {
        room_slots_get(&self.rooms, room.raw())
    }

    /// The wall that `wall` is connected to, if `wall` exists and is connected.
    pub fn wall_target(&self, wall: WallId) -> (t: Option<WallId>)
        ensures
            t == if self.has_wall(wall.key()) {
                self.wall(wall.key()).connected_wall
            } else {
                None
            },
    {
        match self.try_wall_def(wall) {
            Some(d) => d.connected_wall,
            None => None,
        }
    }

    /// Some room of the geometry (the one in the lowest slot).
    pub fn first_room(&self) -> (room: RoomId)
        requires
            self.wf(),
            self.num_rooms_spec() > 0,
        ensures
            self.has_room(room.key()),
            forall|r: u64| #[trigger] self.has_room(r) ==> slot_index(room.key()) <= slot_index(r),
    {
        let ids = self.room_ids();
        proof {
            self.lemma_wf_basics();
            let k = self.room_map().dom().choose();
            assert(self.room_map().dom().len() > 0);
            assert(self.room_map().dom().contains(k));
            assert(self.has_room(k));
            let i = choose|i: int| 0 <= i < ids@.len() && #[trigger] ids@[i].key() == k;
            assert forall|r: u64| #[trigger] self.has_room(r) implies slot_index(ids@[0].key()) <= slot_index(r) by {
                let j = choose|j: int| 0 <= j < ids@.len() && #[trigger] ids@[j].key() == r;
                if j > 0 {
                    assert(slot_index(ids@[0].key()) < slot_index(ids@[j].key()));
                }
            }
        }
        ids[0]
    }

    /// The walls of `room` in loop order, starting at its first wall.
    pub fn room_walls(&self, room: RoomId) -> (walls: Vec<WallId>)
        requires
            self.wf(),
            self.has_room(room.key()),
        ensures
            walls@.len() == self.room_loop(room.key()).len(),
            forall|i: int| 0 <= i < walls@.len() ==> #[trigger] walls@[i].key() == self.room_loop(room.key())[i],
    {
        let ghost r = room.key();
        let ghost s = self.room_loop(r);
        proof {
            self.lemma_room_ok(r);
            self.lemma_loop_len(r);
        }
        let first = self.room_def(room).first_wall;
        let mut walls: Vec<WallId> = Vec::new();
        walls.push(first);
        let mut wall = self.wall_def(first).next_wall;
        let mut i: usize = 1;
        while wall != first
            invariant
                self.room_ok(r),
                s == self.room_loop(r),
                s.len() < MAX_SLOT_COUNT,
                first.key() == s[0],
                1 <= i <= s.len(),
                walls@.len() == i,
                forall|j: int| 0 <= j < i ==> #[trigger] walls@[j].key() == s[j],
                wall.key() == s[succ(i - 1, s.len() as int)],
                self.has_wall(wall.key()),
            decreases s.len() - i,
        {
            proof {
                lemma_wall_id_eq(wall, first);
                if i == s.len() {
                    assert(succ(i - 1, s.len() as int) == 0);
                    assert(wall.key() == first.key());
                }
                assert(succ(i - 1, s.len() as int) == i);
                assert(self.next_of(s[i as int]) == s[succ(i as int, s.len() as int)]);
                assert(self.has_wall(s[succ(i as int, s.len() as int)]));
            }
            walls.push(wall);
            wall = self.wall_def(wall).next_wall;
            i = i + 1;
        }
        proof {
            lemma_wall_id_eq(wall, first);
            if i < s.len() {
                assert(s[i as int] == s[0]);
                assert(false);
            }
        }
        walls
    }

    /// The vertices of `room`, in the order of its walls.
    pub fn room_vertices(&self, room: RoomId) -> (vertices: Vec<VertexId>)
        requires
            self.wf(),
            self.has_room(room.key()),
        ensures
            vertices@.len() == self.room_loop(room.key()).len(),
            forall|i: int|
                0 <= i < vertices@.len() ==> #[trigger] vertices@[i] == self.wall(
                    self.room_loop(room.key())[i],
                ).source_vertex,
    {
        let walls = self.room_walls(room);
        let mut vertices: Vec<VertexId> = Vec::new();
        let mut i: usize = 0;
        proof {
            self.lemma_room_ok(room.key());
        }
        while i < walls.len()
            invariant
                self.wf(),
                self.room_ok(room.key()),
                walls@.len() == self.room_loop(room.key()).len(),
                forall|j: int| 0 <= j < walls@.len() ==> #[trigger] walls@[j].key() == self.room_loop(room.key())[j],
                0 <= i <= walls@.len(),
                vertices@.len() == i,
                forall|j: int|
                    0 <= j < i ==> #[trigger] vertices@[j] == self.wall(
                        self.room_loop(room.key())[j],
                    ).source_vertex,
            decreases walls@.len() - i,
        {
            proof {
                assert(walls@[i as int].key() == self.room_loop(room.key())[i as int]);
                assert(self.has_wall(self.room_loop(room.key())[i as int]));
            }
            vertices.push(self.wall_def(walls[i]).source_vertex);
            i = i + 1;
        }
        vertices
    }

    /// A room's loop is no longer than the number of walls.
    pub proof fn lemma_loop_len(&self, r: u64)
        requires
            self.wf(),
            self.has_room(r),
        ensures
            self.room_loop(r).len() <= self.num_walls_spec(),
            self.num_walls_spec() < MAX_SLOT_COUNT,
    {
        self.lemma_room_ok(r);
        self.lemma_wf_basics();
        let s = self.room_loop(r);
        s.unique_seq_to_set();
        assert(s.to_set().subset_of(self.wall_map().dom()));
        vstd::set_lib::lemma_len_subset(s.to_set(), self.wall_map().dom());
    }

    pub proof fn lemma_room_ok(&self, r: u64)
        requires
            self.wf(),
            self.has_room(r),
        ensures
            self.room_ok(r),
    {
        reveal(WorldGeometry::rooms_wf);
    }

    pub proof fn lemma_wall_ok(&self, w: u64)
        requires
            self.wf(),
            self.has_wall(w),
        ensures
            self.wall_ok(w),
    {
        reveal(WorldGeometry::walls_wf);
    }

    pub proof fn lemma_vertex_ok(&self, v: u64)
        requires
            self.wf(),
            self.has_vertex(v),
        ensures
            self.vertex_ok(v),
    {
        reveal(WorldGeometry::vertices_wf);
    }
}


/// The walls after `new_wall`, starting at `new_vertex`, is put right after
/// `current_wall` in its loop.
pub open spec fn split_wall_walls(
    walls: Map<u64, WallDef>,
    current_wall: WallId,
    new_wall: WallId,
    new_vertex: VertexId,
) -> Map<u64, WallDef> {
    let c = current_wall.key();
    let d = walls[c];
    let nk = d.next_wall.key();
    let w1 = walls.insert(c, WallDef { next_wall: new_wall, ..d });
    let w2 = w1.insert(nk, WallDef { prev_wall: new_wall, ..w1[nk] });
    w2.insert(
        new_wall.key(),
        WallDef {
            source_vertex: new_vertex,
            next_wall: d.next_wall,
            prev_wall: current_wall,
            connected_wall: None,
            vertical_offset: 0,
            horizontal_offset: 0,
            ..d
        },
    )
}

impl WorldGeometry {
    /// Splits `current_wall` in two at a new vertex at `position`: the new wall
    /// runs from that vertex to where `current_wall` used to end. The new wall
    /// takes `current_wall`'s room and color, is not connected, and has no offset.
    #[verifier::rlimit(30)]
    pub fn split_wall(&mut self, current_wall: WallId, position: Vec2i) -> (new_wall: WallId)
        requires
            old(self).wf(),
            old(self).has_wall(current_wall.key()),
            old(self).num_vertices_spec() + 1 < MAX_SLOT_COUNT,
            old(self).num_walls_spec() + 1 < MAX_SLOT_COUNT,
        ensures
            final(self).wf(),
            !old(self).has_wall(new_wall.key()),
            !old(self).has_vertex(final(self).wall(new_wall.key()).source_vertex.key()),
            final(self).vertex_map() == old(self).vertex_map().insert(
                final(self).wall(new_wall.key()).source_vertex.key(),
                VertexDef { outgoing_wall: new_wall, position },
            ),
            final(self).wall_map() == split_wall_walls(
                old(self).wall_map(),
                current_wall,
                new_wall,
                final(self).wall(new_wall.key()).source_vertex,
            ),
            final(self).room_map() == old(self).room_map(),
            ({
                let r = old(self).room_of(current_wall.key());
                let s = old(self).room_loop(r);
                final(self).room_loops() == old(self).room_loops().insert(
                    r,
                    s.insert(s.index_of(current_wall.key()) + 1, new_wall.key()),
                )
            }),
            final(self).num_walls_spec() == old(self).num_walls_spec() + 1,
            final(self).num_vertices_spec() == old(self).num_vertices_spec() + 1,
            final(self).num_rooms_spec() == old(self).num_rooms_spec(),
    {
        let ghost g0 = *old(self);
        let c = current_wall.raw();
        let ghost r = g0.room_of(c);
        let ghost s = g0.room_loop(r);
        proof {
            g0.lemma_wf_basics();
            g0.lemma_wall_ok(c);
            g0.lemma_room_ok(r);
            assert(s.contains(c));
        }
        let ghost i = s.index_of(c);
        let current = self.get_wall_raw(c);
        let next_wall = current.next_wall;
        let nk = next_wall.raw();
        let vertex_key = vertex_slots_insert(&mut self.vertices, VertexDef::at(position));
        let new_vertex = VertexId::from_key(vertex_key);
        let mut wall_def = current;
        wall_def.source_vertex = new_vertex;
        wall_def.connected_wall = None;
        wall_def.prev_wall = current_wall;
        wall_def.next_wall = next_wall;
        wall_def.vertical_offset = 0;
        wall_def.horizontal_offset = 0;
        let wall_key = wall_slots_insert(&mut self.walls, wall_def);
        let new_wall = WallId::from_key(wall_key);
        let mut vertex_def = VertexDef::at(position);
        vertex_def.outgoing_wall = new_wall;
        vertex_slots_set(&mut self.vertices, vertex_key, vertex_def);
        let mut current_def = self.get_wall_raw(c);
        current_def.next_wall = new_wall;
        self.set_wall_raw(c, current_def);
        let mut next_def = self.get_wall_raw(nk);
        next_def.prev_wall = new_wall;
        self.set_wall_raw(nk, next_def);
        self.loops = Ghost(self.loops@.insert(r, s.insert(i + 1, wall_key)));
        proof {
            assert(self.vertex_map() =~= g0.vertex_map().insert(vertex_key, vertex_def));
            assert(self.wall_map() =~= split_wall_walls(g0.wall_map(), current_wall, new_wall, new_vertex));
            lemma_split_wall_facts(*self, g0, current_wall, new_wall, new_vertex, position);
            let t = s.insert(i + 1, wall_key);
            lemma_split_wall_keys(*self, g0, c, nk, wall_key, vertex_key, r, t);
            lemma_split_wall_walls(*self, g0, c, nk, wall_key, vertex_key, r, t);
            lemma_split_wall_rooms(*self, g0, c, nk, wall_key, vertex_key, r, t);
            lemma_split_wall_vertices(*self, g0, c, nk, wall_key, vertex_key, r, t);
        }
        new_wall
    }

    /// The wall that ends at vertex `v`: the one before `v`'s outgoing wall.
    pub open spec fn incoming_wall(&self, v: u64) -> WallId {
        self.wall(self.vertex(v).outgoing_wall.key()).prev_wall
    }

    /// A vertex has a second outgoing wall when the wall arriving at it is
    /// connected to a wall that starts at it.
    pub open spec fn has_second_outgoing(&self, v: u64) -> bool {
        self.wall(self.incoming_wall(v).key()).connected_wall matches Some(t)
            && self.wall(t.key()).source_vertex.key() == v
    }

    /// Duplicates `vertex`: the wall arriving at it is split at a new vertex in
    /// the same place (see [`WorldGeometry::split_wall`]), which leaves a new
    /// wall of length zero from the new vertex to `vertex`. Returns that wall.
    ///
    /// Refused when more than one wall leaves from `vertex`.
    pub fn split_vertex(&mut self, vertex: VertexId) -> (res: Result<WallId, GeometryError>)
        requires
            old(self).wf(),
            old(self).has_vertex(vertex.key()),
            old(self).num_vertices_spec() + 1 < MAX_SLOT_COUNT,
            old(self).num_walls_spec() + 1 < MAX_SLOT_COUNT,
        ensures
            res is Err <==> old(self).has_second_outgoing(vertex.key()),
            res is Err ==> res == Err::<WallId, GeometryError>(GeometryError::SharedVertex) && *final(self) == *old(self),
            res matches Ok(new_wall) ==> {
                let g0 = *old(self);
                let g1 = *final(self);
                let nv = g1.wall(new_wall.key()).source_vertex;
                &&& g1.wf()
                &&& !g0.has_wall(new_wall.key())
                &&& !g0.has_vertex(nv.key())
                &&& g1.vertex_map() == g0.vertex_map().insert(
                    nv.key(),
                    VertexDef { outgoing_wall: new_wall, position: g0.vertex(vertex.key()).position },
                )
                &&& g1.wall_map() == split_wall_walls(g0.wall_map(), g0.incoming_wall(vertex.key()), new_wall, nv)
                &&& g1.room_map() == g0.room_map()
                &&& g1.num_walls_spec() == g0.num_walls_spec() + 1
                &&& g1.num_vertices_spec() == g0.num_vertices_spec() + 1
            },
    {
        let ghost g0 = *old(self);
        let v = vertex.raw();
        proof {
            g0.lemma_wf_basics();
            g0.lemma_vertex_ok(v);
        }
        let vd = self.get_vertex_raw(v);
        let out = vd.outgoing_wall.raw();
        proof {
            g0.lemma_wall_ok(out);
        }
        let prev_incoming = self.get_wall_raw(out).prev_wall;
        let pk = prev_incoming.raw();
        proof {
            g0.lemma_wall_ok(pk);
        }
        let pd = self.get_wall_raw(pk);
        if let Some(t) = pd.connected_wall {
            let td = self.get_wall_raw(t.raw());
            if td.source_vertex.raw() == v {
                return Err(GeometryError::SharedVertex);
            }
        }
        let new_wall = self.split_wall(prev_incoming, vd.position);
        Ok(new_wall)
    }
}


impl WorldGeometry {
    /// The walls are as in `g0` but for their connections, which follow
    /// [`connection_after`]; nothing else changed.
    pub open spec fn connected_from(&self, g0: &WorldGeometry, wall: WallId, target: Option<WallId>) -> bool {
        &&& self.vertex_map() == g0.vertex_map()
        &&& self.room_map() == g0.room_map()
        &&& self.room_loops() == g0.room_loops()
        &&& self.wall_map().dom() == g0.wall_map().dom()
        &&& forall|x: u64|
            #[trigger] g0.has_wall(x) ==> self.wall(x) == WallDef {
                connected_wall: connection_after(*g0, wall, target, x),
                ..g0.wall(x)
            }
    }

    fn set_connection(&mut self, w: u64, target: Option<WallId>)
        requires
            old(self).has_wall(w),
            is_key(w),
        ensures
            final(self).wall_map() == old(self).wall_map().insert(
                w,
                WallDef { connected_wall: target, ..old(self).wall(w) },
            ),
            final(self).same_but_walls(old(self)),
    {
        let mut d = self.get_wall_raw(w);
        d.connected_wall = target;
        self.set_wall_raw(w, d);
    }

    /// Connects `wall` to `new_target` (or disconnects it, with `None`). Both
    /// end up pointing at each other; whatever either was connected to before is
    /// left unconnected. Connecting a wall to itself is refused.
    #[verifier::rlimit(30)]
    pub fn connect_wall(&mut self, wall: WallId, new_target: Option<WallId>) -> (res: Result<(), GeometryError>)
        requires
            old(self).wf(),
            old(self).has_wall(wall.key()),
            new_target matches Some(t) ==> old(self).has_wall(t.key()),
        ensures
            res is Err <==> (new_target matches Some(t) && t.key() == wall.key()),
            res is Err ==> res == Err::<(), GeometryError>(GeometryError::SelfConnection) && *final(self) == *old(self),
            res is Ok ==> final(self).wf() && final(self).connected_from(old(self), wall, new_target),
    {
        let ghost g0 = *old(self);
        if let Some(t) = new_target {
            if t.raw() == wall.raw() {
                return Err(GeometryError::SelfConnection);
            }
        }
        let w = wall.raw();
        proof {
            g0.lemma_wf_basics();
            lemma_wf_connections(g0);
            lemma_connection_after_symmetric(g0, wall, new_target);
        }
        let old_target = self.get_wall_raw(w).connected_wall;
        if let Some(o) = old_target {
            if let Some(t) = new_target {
                if t.raw() == o.raw() {
                    proof {
                        lemma_wall_id_eq(t, o);
                        assert(g0.wall(t.key()).connected_wall matches Some(u) && u.key() == w);
                        let u = g0.wall(t.key()).connected_wall.unwrap();
                        lemma_wall_id_eq(u, wall);
                        assert(self.wall_map() =~= Map::new(
                            |x: u64| g0.has_wall(x),
                            |x: u64| WallDef { connected_wall: connection_after(g0, wall, new_target, x), ..g0.wall(x) },
                        )) by {
                            assert forall|x: u64| #[trigger] g0.has_wall(x) implies g0.wall(x) == WallDef { connected_wall: connection_after(g0, wall, new_target, x), ..g0.wall(x) } by {
                                if x != w && x != t.key() {
                                    if let Some(y) = g0.wall(x).connected_wall {
                                        assert(g0.has_wall(y.key()));
                                        assert(y.key() != w);
                                        assert(y.key() != t.key());
                                    }
                                }
                            }
                        }
                    }
                    return Ok(());
                }
            }
            self.set_connection(o.raw(), None);
        }
        let ghost g1 = *self;
        if let Some(t) = new_target {
            let tk = t.raw();
            let t_old = self.get_wall_raw(tk).connected_wall;
            if let Some(o2) = t_old {
                self.set_connection(o2.raw(), None);
            }
            self.set_connection(tk, Some(wall));
        }
        self.set_connection(w, new_target);
        proof {
            assert forall|x: u64| #[trigger] g0.has_wall(x) implies self.wall(x) == WallDef { connected_wall: connection_after(g0, wall, new_target, x), ..g0.wall(x) } by {
                if x != w {
                    if let Some(t) = new_target {
                        if x != t.key() {
                            if let Some(y) = g0.wall(x).connected_wall {
                                assert(g0.has_wall(y.key()));
                            }
                        }
                    } else {
                        if let Some(y) = g0.wall(x).connected_wall {
                            assert(g0.has_wall(y.key()));
                        }
                    }
                }
            }
            assert(self.wall_map().dom() =~= g0.wall_map().dom());
            assert(connections_ok(*self)) by {
                assert forall|x: u64| #[trigger] self.has_wall(x) implies (self.wall(x).connected_wall matches Some(tt) ==> {
                    &&& self.has_wall(tt.key())
                    &&& tt.key() != x
                    &&& self.wall(tt.key()).connected_wall matches Some(u)
                    &&& u.key() == x
                }) by {
                    assert(g0.has_wall(x));
                    if let Some(y) = connection_after(g0, wall, new_target, x) {
                        assert(g0.has_wall(y.key()));
                    }
                }
            }
            lemma_same_layout_wf(*self, g0);
        }
        Ok(())
    }

    /// Moves `vertex` to `position`.
    pub fn set_vertex_position(&mut self, vertex: VertexId, position: Vec2i)
        requires
            old(self).wf(),
            old(self).has_vertex(vertex.key()),
        ensures
            final(self).wf(),
            final(self).vertex_map() == old(self).vertex_map().insert(
                vertex.key(),
                VertexDef { position, ..old(self).vertex(vertex.key()) },
            ),
            final(self).wall_map() == old(self).wall_map(),
            final(self).room_map() == old(self).room_map(),
            final(self).room_loops() == old(self).room_loops(),
    {
        let ghost g0 = *old(self);
        let v = vertex.raw();
        let mut d = self.get_vertex_raw(v);
        d.position = position;
        self.set_vertex_raw(v, d);
        proof {
            lemma_wf_connections(g0);
            assert(self.vertex_map().dom() =~= g0.vertex_map().dom());
            assert(connections_ok(*self)) by {
                assert forall|x: u64| #[trigger] self.has_wall(x) implies (self.wall(x).connected_wall matches Some(tt) ==> {
                    &&& self.has_wall(tt.key())
                    &&& tt.key() != x
                    &&& self.wall(tt.key()).connected_wall matches Some(u)
                    &&& u.key() == x
                }) by {
                    assert(g0.has_wall(x));
                }
            }
            lemma_same_layout_wf(*self, g0);
        }
    }

    /// Sets how `wall` looks: its color and its aperture offsets.
    pub fn set_wall_appearance(&mut self, wall: WallId, color: Color, vertical_offset: i32, horizontal_offset: i32)
        requires
            old(self).wf(),
            old(self).has_wall(wall.key()),
        ensures
            final(self).wf(),
            final(self).wall_map() == old(self).wall_map().insert(
                wall.key(),
                WallDef { color, vertical_offset, horizontal_offset, ..old(self).wall(wall.key()) },
            ),
            final(self).same_but_walls(old(self)),
    {
        let ghost g0 = *old(self);
        let w = wall.raw();
        let mut d = self.get_wall_raw(w);
        d.color = color;
        d.vertical_offset = vertical_offset;
        d.horizontal_offset = horizontal_offset;
        self.set_wall_raw(w, d);
        proof {
            lemma_wf_connections(g0);
            assert(self.wall_map().dom() =~= g0.wall_map().dom());
            assert(connections_ok(*self)) by {
                assert forall|x: u64| #[trigger] self.has_wall(x) implies (self.wall(x).connected_wall matches Some(tt) ==> {
                    &&& self.has_wall(tt.key())
                    &&& tt.key() != x
                    &&& self.wall(tt.key()).connected_wall matches Some(u)
                    &&& u.key() == x
                }) by {
                    assert(g0.has_wall(x));
                }
            }
            lemma_same_layout_wf(*self, g0);
        }
    }

    /// Sets how `room` looks: its floor and ceiling colors and its height.
    pub fn set_room_appearance(&mut self, room: RoomId, floor_color: Color, ceiling_color: Color, height: u32)
        requires
            old(self).wf(),
            old(self).has_room(room.key()),
        ensures
            final(self).wf(),
            final(self).room_map() == old(self).room_map().insert(
                room.key(),
                RoomDef { floor_color, ceiling_color, height, ..old(self).room(room.key()) },
            ),
            final(self).wall_map() == old(self).wall_map(),
            final(self).vertex_map() == old(self).vertex_map(),
            final(self).room_loops() == old(self).room_loops(),
    {
        let ghost g0 = *old(self);
        let r = room.raw();
        let mut d = self.get_room_raw(r);
        d.floor_color = floor_color;
        d.ceiling_color = ceiling_color;
        d.height = height;
        self.set_room_raw(r, d);
        proof {
            lemma_wf_connections(g0);
            assert(self.room_map().dom() =~= g0.room_map().dom());
            assert(connections_ok(*self)) by {
                assert forall|x: u64| #[trigger] self.has_wall(x) implies (self.wall(x).connected_wall matches Some(tt) ==> {
                    &&& self.has_wall(tt.key())
                    &&& tt.key() != x
                    &&& self.wall(tt.key()).connected_wall matches Some(u)
                    &&& u.key() == x
                }) by {
                    assert(g0.has_wall(x));
                }
            }
            lemma_same_layout_wf(*self, g0);
        }
    }
}

/// `s` rotated to start at index `i`.
pub open spec fn rotate(s: Seq<u64>, i: int) -> Seq<u64> {
    s.subrange(i, s.len() as int) + s.subrange(0, i)
}

/// Index in `s` of the element at index `j` of `rotate(s, i)`.
pub open spec fn rot(i: int, j: int, n: int) -> int {
    if i + j < n {
        i + j
    } else {
        i + j - n
    }
}

pub proof fn lemma_rotate(s: Seq<u64>, i: int)
    requires
        0 <= i < s.len(),
    ensures
        rotate(s, i).len() == s.len(),
        forall|j: int| 0 <= j < s.len() ==> #[trigger] rotate(s, i)[j] == s[rot(i, j, s.len() as int)],
        forall|j: int| 0 <= j < s.len() ==> 0 <= #[trigger] rot(i, j, s.len() as int) < s.len(),
        forall|j: int| 0 <= j < s.len() ==> rot(i, #[trigger] succ(j, s.len() as int), s.len() as int) == succ(rot(i, j, s.len() as int), s.len() as int),
        forall|j: int| 0 <= j < s.len() ==> rot(i, #[trigger] pred(j, s.len() as int), s.len() as int) == pred(rot(i, j, s.len() as int), s.len() as int),
        s.no_duplicates() ==> rotate(s, i).no_duplicates(),
{
    let n = s.len() as int;
    let u = rotate(s, i);
    assert forall|j: int| 0 <= j < n implies #[trigger] u[j] == s[rot(i, j, n)] by {
        if j < n - i {
            assert(u[j] == s.subrange(i, n)[j]);
        } else {
            assert(u[j] == s.subrange(0, i)[j - (n - i)]);
        }
    }
    if s.no_duplicates() {
        assert forall|a: int, b: int| 0 <= a < n && 0 <= b < n && a != b implies u[a] != u[b] by {
            assert(u[a] == s[rot(i, a, n)]);
            assert(u[b] == s[rot(i, b, n)]);
        }
    }
}

impl WorldGeometry {
    /// The walls of `w`'s room in loop order, starting at `w`.
    pub open spec fn loop_from(&self, w: u64) -> Seq<u64> {
        let s = self.room_loop(self.room_of(w));
        rotate(s, s.index_of(w))
    }

    /// Walking `next` from `w` goes around `w`'s room loop.
    pub proof fn lemma_loop_from(&self, w: u64)
        requires
            self.wf(),
            self.has_wall(w),
        ensures
            ({
                let u = self.loop_from(w);
                let r = self.room_of(w);
                &&& self.has_room(r)
                &&& u.len() == self.room_loop(r).len()
                &&& u.len() > 0
                &&& u.len() < MAX_SLOT_COUNT
                &&& u[0] == w
                &&& u.no_duplicates()
                &&& forall|x: u64| u.contains(x) <==> #[trigger] self.room_loop(r).contains(x)
                &&& forall|j: int|
                    0 <= j < u.len() ==> {
                        &&& self.has_wall(#[trigger] u[j])
                        &&& self.room_of(u[j]) == r
                        &&& self.next_of(u[j]) == u[succ(j, u.len() as int)]
                        &&& self.prev_of(u[j]) == u[pred(j, u.len() as int)]
                    }
            }),
    {
        self.lemma_wall_ok(w);
        let r = self.room_of(w);
        self.lemma_room_ok(r);
        self.lemma_loop_len(r);
        let s = self.room_loop(r);
        let n = s.len() as int;
        assert(s.contains(w));
        let i = s.index_of(w);
        lemma_rotate(s, i);
        let u = self.loop_from(w);
        assert(u[0] == s[i]);
        assert forall|x: u64| u.contains(x) <==> #[trigger] s.contains(x) by {
            if s.contains(x) {
                let k = choose|k: int| 0 <= k < n && s[k] == x;
                let j = if k >= i { k - i } else { k + n - i };
                assert(rot(i, j, n) == k);
                assert(u[j] == x);
            }
            if u.contains(x) {
                let j = choose|j: int| 0 <= j < n && u[j] == x;
                assert(s[rot(i, j, n)] == x);
            }
        }
        assert forall|j: int| 0 <= j < n implies {
            &&& self.has_wall(#[trigger] u[j])
            &&& self.room_of(u[j]) == r
            &&& self.next_of(u[j]) == u[succ(j, n)]
            &&& self.prev_of(u[j]) == u[pred(j, n)]
        } by {
            let k = rot(i, j, n);
            assert(u[j] == s[k]);
            assert(u[succ(j, n)] == s[rot(i, succ(j, n), n)]);
            assert(u[pred(j, n)] == s[rot(i, pred(j, n), n)]);
            assert(self.next_of(s[k]) == s[succ(k, n)]);
            let pk = pred(k, n);
            assert(self.next_of(s[pk]) == s[succ(pk, n)]);
            assert(succ(pk, n) == k);
            self.lemma_wall_ok(s[pk]);
            self.lemma_wall_ok(s[k]);
        }
    }
}

impl WorldGeometry {
    /// The wall `a` of `g0` is split off into a new room together with the walls
    /// after it up to `b`; `nw` is the wall closing the new room.
    pub open spec fn split_room_done(&self, g0: &WorldGeometry, a: u64, b: u64, nw: u64) -> bool {
        &&& self.wall(nw).connected_wall is Some
        &&& split_room_facts(
            *self,
            *g0,
            a,
            b,
            g0.room_of(a),
            self.room_of(nw),
            nw,
            self.wall(nw).connected_wall->0.key(),
            g0.loop_from(a),
            g0.loop_from(a).index_of(b),
        )
    }

    fn set_wall_links(&mut self, w: u64, next: Option<WallId>, prev: Option<WallId>, room: Option<RoomId>)
        requires
            old(self).has_wall(w),
            is_key(w),
        ensures
            final(self).wall_map() == old(self).wall_map().insert(
                w,
                WallDef {
                    next_wall: match next { Some(x) => x, None => old(self).wall(w).next_wall },
                    prev_wall: match prev { Some(x) => x, None => old(self).wall(w).prev_wall },
                    room: match room { Some(x) => x, None => old(self).wall(w).room },
                    ..old(self).wall(w)
                },
            ),
            final(self).same_but_walls(old(self)),
    {
        let mut d = self.get_wall_raw(w);
        if let Some(x) = next {
            d.next_wall = x;
        }
        if let Some(x) = prev {
            d.prev_wall = x;
        }
        if let Some(x) = room {
            d.room = x;
        }
        self.set_wall_raw(w, d);
    }

    /// Links in the two walls that close the loops of a room split (see
    /// [`WorldGeometry::split_room`]) and adds the new room; rooms of the walls
    /// moved to the new room are not updated yet.
    #[verifier::rlimit(60)]
    fn split_room_link(&mut self, new_loop_start: WallId, new_loop_end: WallId, Ghost(u): Ghost<Seq<u64>>, Ghost(e): Ghost<int>) -> (keys: (u64, u64, u64))
        requires
            old(self).wf(),
            old(self).has_wall(new_loop_start.key()),
            u == old(self).loop_from(new_loop_start.key()),
            1 <= e <= u.len() - 2,
            u[e] == new_loop_end.key(),
            old(self).num_walls_spec() + 2 < MAX_SLOT_COUNT,
            old(self).num_rooms_spec() + 1 < MAX_SLOT_COUNT,
        ensures
            split_link_facts(
                *final(self),
                *old(self),
                new_loop_start.key(),
                new_loop_end.key(),
                old(self).room_of(new_loop_start.key()),
                keys.1,
                keys.2,
                keys.0,
                u,
                e,
            ),
            keys.1 != NULL_KEY,
            slot_index(keys.1) < 0xffff_ffff,
    {
        let ghost g0 = *old(self);
        let ghost n = u.len() as int;
        let a = new_loop_start.raw();
        let b = new_loop_end.raw();
        proof {
            g0.lemma_wf_basics();
            g0.lemma_loop_from(a);
            assert(g0.has_wall(b));
        }
        let start_def = self.get_wall_raw(a);
        let end_def = self.get_wall_raw(b);
        let current_room = start_def.room;
        let r = current_room.raw();
        let old_loop_start = end_def.next_wall;
        let old_loop_end = start_def.prev_wall;
        let ols = old_loop_start.raw();
        let ole = old_loop_end.raw();
        proof {
            assert(u[0] == a);
            assert(ols == u[e + 1]);
            assert(ole == u[n - 1]);
            assert(u[n - 1] != b && u[e + 1] != a && u[n - 1] != a && u[e + 1] != b);
            assert(g0.has_wall(ols) && g0.has_wall(ole));
            g0.lemma_room_ok(r);
        }
        let ols_def = self.get_wall_raw(ols);
        let mut current_side = start_def;
        current_side.prev_wall = old_loop_end;
        current_side.next_wall = old_loop_start;
        current_side.room = current_room;
        current_side.connected_wall = None;
        let nwc = wall_slots_insert(&mut self.walls, current_side);
        let current_side_wall = WallId::from_key(nwc);
        self.set_wall_links(ols, None, Some(current_side_wall), None);
        self.set_wall_links(ole, Some(current_side_wall), None, None);
        let ghost s3 = *self;
        proof {
            assert(s3.wall(nwc) == current_side);
            assert(s3.wall_map().dom() =~= g0.wall_map().dom().insert(nwc));
        }
        let mut current_room_def = self.get_room_raw(r);
        current_room_def.first_wall = current_side_wall;
        self.set_room_raw(r, current_room_def);
        proof {
            assert(self.room_map().dom() =~= g0.room_map().dom());
        }
        let nr = room_slots_insert(&mut self.rooms, current_room_def);
        proof {
            lemma_slot_index_not_null(nr);
        }
        let new_room = RoomId::from_key(nr);
        let mut new_side = start_def;
        new_side.source_vertex = ols_def.source_vertex;
        new_side.room = new_room;
        new_side.prev_wall = new_loop_end;
        new_side.next_wall = new_loop_start;
        new_side.connected_wall = None;
        let nwn = wall_slots_insert(&mut self.walls, new_side);
        let new_side_wall = WallId::from_key(nwn);
        self.set_wall_links(a, None, Some(new_side_wall), None);
        self.set_wall_links(b, Some(new_side_wall), None, None);
        let mut new_room_def = self.get_room_raw(nr);
        new_room_def.first_wall = new_side_wall;
        self.set_room_raw(nr, new_room_def);
        proof {
            let g1 = *self;
            assert(!g0.has_wall(nwn) && nwn != nwc);
            assert(g1.wall(nwn) == new_side);
            assert(g1.wall(nwc) == current_side);
            assert forall|x: u64| #[trigger] g1.has_wall(x) <==> (g0.has_wall(x) || x == nwn || x == nwc) by {}
            assert forall|x: u64| #[trigger] g0.has_wall(x) implies {
                &&& g1.wall(x) == (WallDef {
                    next_wall: g1.wall(x).next_wall,
                    prev_wall: g1.wall(x).prev_wall,
                    ..g0.wall(x)
                })
                &&& g1.next_of(x) == if x == b {
                    nwn
                } else if x == u[n - 1] {
                    nwc
                } else {
                    g0.next_of(x)
                }
                &&& g1.prev_of(x) == if x == a {
                    nwn
                } else if x == u[e + 1] {
                    nwc
                } else {
                    g0.prev_of(x)
                }
            } by {
                assert(x != nwc && x != nwn);
            }
            assert(g1.room_map().dom() =~= g0.room_map().dom().insert(nr));
            assert forall|rr: u64| #[trigger] g0.has_room(rr) && rr != r implies g1.room(rr) == g0.room(rr) by {
                assert(rr != nr);
            }
            assert(g1.room(r) == current_room_def);
            assert(g1.room(nr) == new_room_def);
        }
        (nwc, nr, nwn)
    }

    /// Sets the room of the walls `u[0..=e]` to `new_room`, walking `next` from
    /// `u[0]` until `stop`.
    #[verifier::rlimit(40)]
    fn assign_room_along(&mut self, start: WallId, stop: u64, new_room: RoomId, Ghost(u): Ghost<Seq<u64>>, Ghost(e): Ghost<int>)
        requires
            0 <= e < u.len(),
            u[0] == start.key(),
            u.no_duplicates(),
            forall|j: int| 0 <= j < u.len() ==> old(self).has_wall(#[trigger] u[j]),
            forall|j: int| 0 <= j < u.len() ==> #[trigger] u[j] != stop,
            forall|j: int| 0 <= j < e ==> old(self).next_of(#[trigger] u[j]) == u[j + 1],
            old(self).next_of(u[e]) == stop,
        ensures
            final(self).same_but_walls(old(self)),
            final(self).wall_map().dom() == old(self).wall_map().dom(),
            forall|j: int| 0 <= j <= e ==> #[trigger] final(self).wall(u[j]) == (WallDef { room: new_room, ..old(self).wall(u[j]) }),
            forall|x: u64| #[trigger] old(self).has_wall(x) && !u.subrange(0, e + 1).contains(x) ==> final(self).wall(x) == old(self).wall(x),
    {
        let ghost g1 = *old(self);
        let mut wall_it = start;
        let ghost mut k: int = 0;
        while wall_it.raw() != stop
            invariant
                0 <= k <= e + 1,
                0 <= e < u.len(),
                u.no_duplicates(),
                forall|j: int| 0 <= j < u.len() ==> g1.has_wall(#[trigger] u[j]),
                forall|j: int| 0 <= j < u.len() ==> #[trigger] u[j] != stop,
                wall_it.key() == if k <= e { u[k] } else { stop },
                self.same_but_walls(&g1),
                self.wall_map().dom() == g1.wall_map().dom(),
                forall|j: int| 0 <= j < e ==> g1.next_of(#[trigger] u[j]) == u[j + 1],
                g1.next_of(u[e]) == stop,
                forall|j: int| 0 <= j < k ==> #[trigger] self.wall(u[j]) == (WallDef { room: new_room, ..g1.wall(u[j]) }),
                forall|x: u64| #[trigger] g1.has_wall(x) && !u.subrange(0, k).contains(x) ==> self.wall(x) == g1.wall(x),
            decreases e + 1 - k,
        {
            proof {
                if k > e {
                    assert(false);
                }
                assert(!u.subrange(0, k).contains(u[k])) by {
                    if u.subrange(0, k).contains(u[k]) {
                        let j = choose|j: int| 0 <= j < k && #[trigger] u.subrange(0, k)[j] == u[k];
                        assert(u[j] == u[k]);
                    }
                }
                assert(self.wall(u[k]) == g1.wall(u[k]));
            }
            let w = wall_it.raw();
            self.set_wall_links(w, None, None, Some(new_room));
            let next = self.get_wall_raw(w).next_wall;
            proof {
                assert forall|x: u64| #[trigger] g1.has_wall(x) && !u.subrange(0, k + 1).contains(x) implies self.wall(x) == g1.wall(x) by {
                    assert(x != u[k]) by {
                        assert(u.subrange(0, k + 1)[k] == u[k]);
                    }
                    if u.subrange(0, k).contains(x) {
                        let j = choose|j: int| 0 <= j < k && #[trigger] u.subrange(0, k)[j] == x;
                        assert(u.subrange(0, k + 1)[j] == x);
                    }
                }
                assert forall|j: int| 0 <= j < k + 1 implies #[trigger] self.wall(u[j]) == (WallDef { room: new_room, ..g1.wall(u[j]) }) by {
                    if j < k {
                        assert(u[j] != u[k]);
                    }
                }
                k = k + 1;
            }
            wall_it = next;
        }
        proof {
            if k <= e {
                assert(false);
            }
            assert(u.subrange(0, e + 1) =~= u.subrange(0, k));
        }
    }

    /// Splits the walls from `new_loop_start` to `new_loop_end` (following the
    /// room's loop) off into a new room, closed by a new wall from the vertex
    /// after `new_loop_end` back to `new_loop_start`'s vertex; the old room is
    /// closed by a second new wall in the other direction, and the two new walls
    /// are connected. The new room takes the old room's colors and height.
    /// Returns the new room's closing wall.
    ///
    /// Refused when both ends are the same wall, lie in different rooms, or
    /// would take the whole loop.
    #[verifier::rlimit(40)]
    pub fn split_room(&mut self, new_loop_start: WallId, new_loop_end: WallId) -> (res: Result<WallId, GeometryError>)
        requires
            old(self).wf(),
            old(self).has_wall(new_loop_start.key()),
            old(self).has_wall(new_loop_end.key()),
            old(self).num_walls_spec() + 2 < MAX_SLOT_COUNT,
            old(self).num_rooms_spec() + 1 < MAX_SLOT_COUNT,
        ensures
            (res == Err::<WallId, GeometryError>(GeometryError::FlatRoom)) <==> new_loop_start.key() == new_loop_end.key(),
            (res == Err::<WallId, GeometryError>(GeometryError::DifferentRooms)) <==> (new_loop_start.key() != new_loop_end.key()
                && old(self).room_of(new_loop_start.key()) != old(self).room_of(new_loop_end.key())),
            (res == Err::<WallId, GeometryError>(GeometryError::WholeLoop)) <==> (new_loop_start.key() != new_loop_end.key()
                && old(self).room_of(new_loop_start.key()) == old(self).room_of(new_loop_end.key())
                && old(self).next_of(new_loop_end.key()) == new_loop_start.key()),
            res is Ok <==> (new_loop_start.key() != new_loop_end.key()
                && old(self).room_of(new_loop_start.key()) == old(self).room_of(new_loop_end.key())
                && old(self).next_of(new_loop_end.key()) != new_loop_start.key()),
            res is Err ==> *final(self) == *old(self),
            res matches Ok(nw) ==> final(self).wf() && final(self).split_room_done(
                old(self),
                new_loop_start.key(),
                new_loop_end.key(),
                nw.key(),
            ),
            res matches Ok(nw) ==> final(self).room_of(nw.key()) != NULL_KEY,
            res matches Ok(nw) ==> slot_index(final(self).room_of(nw.key())) < 0xffff_ffff,
            res is Ok ==> final(self).num_walls_spec() == old(self).num_walls_spec() + 2
                && final(self).num_rooms_spec() == old(self).num_rooms_spec() + 1
                && final(self).num_vertices_spec() == old(self).num_vertices_spec(),
    {
        let ghost g0 = *old(self);
        let a = new_loop_start.raw();
        let b = new_loop_end.raw();
        if a == b {
            return Err(GeometryError::FlatRoom);
        }
        let start_def = self.get_wall_raw(a);
        let end_def = self.get_wall_raw(b);
        if start_def.room.raw() != end_def.room.raw() {
            return Err(GeometryError::DifferentRooms);
        }
        if end_def.next_wall.raw() == a {
            return Err(GeometryError::WholeLoop);
        }
        let r = start_def.room.raw();
        let ghost u = g0.loop_from(a);
        let ghost n = u.len() as int;
        proof {
            g0.lemma_wf_basics();
            g0.lemma_loop_from(a);
            g0.lemma_wall_ok(b);
            assert(u.contains(b));
        }
        let ghost e = u.index_of(b);
        proof {
            assert(u[e] == b);
            if e == n - 1 {
                assert(g0.next_of(u[e]) == u[succ(e, n)]);
                assert(false);
            }
            assert(e != 0);
            lemma_split_room_setup(g0, a, u, e);
        }
        let (nwc, nr, nwn) = self.split_room_link(new_loop_start, new_loop_end, Ghost(u), Ghost(e));
        let ghost g1 = *self;
        let new_room = RoomId::from_key(nr);
        proof {
            assert(g1.has_wall(nwn) && g1.has_wall(nwc));
            assert forall|j: int| 0 <= j < e implies g1.next_of(#[trigger] u[j]) == u[j + 1] by {
                assert(g0.next_of(u[j]) == u[succ(j, n)]);
                assert(g0.has_wall(u[j]));
                assert(u[j] != b);
                assert(u[j] != u[n - 1]);
            }
            assert(g0.has_wall(b));
            assert forall|j: int| 0 <= j < u.len() implies #[trigger] u[j] != nwn by {
                assert(g0.has_wall(u[j]));
            }
            assert forall|j: int| 0 <= j < u.len() implies g1.has_wall(#[trigger] u[j]) by {
                assert(g0.has_wall(u[j]));
            }
        }
        self.assign_room_along(new_loop_start, nwn, new_room, Ghost(u), Ghost(e));
        let ghost g2 = *self;
        let current_side_wall = WallId::from_key(nwc);
        let new_side_wall = WallId::from_key(nwn);
        let mut d = self.get_wall_raw(nwn);
        d.connected_wall = Some(current_side_wall);
        self.set_wall_raw(nwn, d);
        let mut d2 = self.get_wall_raw(nwc);
        d2.connected_wall = Some(new_side_wall);
        self.set_wall_raw(nwc, d2);
        self.loops = Ghost(self.loops@.insert(r, left_loop(u, e, nwc)).insert(nr, split_off_loop(u, e, nwn)));
        proof {
            lemma_split_room_finish(*self, g2, g1, g0, a, b, r, new_room, new_side_wall, current_side_wall, u, e);
            assert(self.wall(nwn).connected_wall->0.key() == nwc);
            lemma_split_room_keys(*self, g0, a, b, r, nr, nwn, nwc, u, e);
            lemma_split_room_walls(*self, g0, a, b, r, nr, nwn, nwc, u, e);
            lemma_split_room_rooms(*self, g0, a, b, r, nr, nwn, nwc, u, e);
            lemma_split_room_vertices(*self, g0, a, b, r, nr, nwn, nwc, u, e);
        }
        Ok(new_side_wall)
    }
}

} // verus!
