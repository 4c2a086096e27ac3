//! Consistency checks of a world geometry, and the convexity of its rooms.
//!
//! A wall's direction is the integer vector from its start vertex to the start
//! vertex of the next wall. The corner after a wall is concave when turning from
//! its direction to the next wall's direction turns left, that is when the
//! cross product of the two directions is positive; a room is convex when none
//! of its corners is concave.
use vstd::prelude::*;
use crate::geometry::{succ, GeometryError, WorldGeometry};
use crate::ids::{lemma_room_id_eq, lemma_vertex_id_eq, lemma_wall_id_eq, RoomId, VertexId, WallId};
use crate::convexity::is_next_vertex_concave;

verus! {

/// Cross product of `(ax, ay)` and `(bx, by)`.
pub open spec fn wedge(ax: int, ay: int, bx: int, by: int) -> int {
    ax * by - ay * bx
}

impl WorldGeometry {
    /// Position of the vertex wall `w` starts at.
    pub open spec fn start_of(&self, w: u64) -> (int, int) {
        let p = self.vertex(self.wall(w).source_vertex.key()).position;
        (p.x as int, p.y as int)
    }

    /// Direction of wall `w`: from its start to the start of the next wall.
    pub open spec fn direction_of(&self, w: u64) -> (int, int) {
        let a = self.start_of(w);
        let b = self.start_of(self.next_of(w));
        (b.0 - a.0, b.1 - a.1)
    }

    /// The corner between wall `w` and the next wall turns left.
    pub open spec fn concave_after(&self, w: u64) -> bool {
        let d = self.direction_of(w);
        let e = self.direction_of(self.next_of(w));
        wedge(d.0, d.1, e.0, e.1) > 0
    }

    /// No corner of room `r` is concave.
    pub open spec fn room_convex(&self, r: u64) -> bool {
        forall|i: int| 0 <= i < self.room_loop(r).len() ==> !self.concave_after(#[trigger] self.room_loop(r)[i])
    }

    /// Every room is convex.
    pub open spec fn all_rooms_convex(&self) -> bool {
        forall|r: u64| #[trigger] self.has_room(r) ==> self.room_convex(r)
    }

    /// `u[i]` is the first wall of `u` with a concave corner after it.
    pub open spec fn first_concave_at(&self, u: Seq<u64>, i: int) -> bool {
        &&& 0 <= i < u.len()
        &&& self.concave_after(u[i])
        &&& forall|j: int| 0 <= j < i ==> !self.concave_after(#[trigger] u[j])
    }

    /// The direction of `wall`, as [`WorldGeometry::direction_of`] gives it.
    pub fn wall_direction(&self, wall: WallId) -> (d: (i64, i64))
        requires
            self.wf(),
            self.has_wall(wall.key()),
        ensures
            d.0 == self.direction_of(wall.key()).0,
            d.1 == self.direction_of(wall.key()).1,
    {
        proof {
            self.lemma_wall_ok(wall.key());
            self.lemma_wall_ok(self.next_of(wall.key()));
        }
        let def = self.wall_def(wall);
        let start = self.vertex_def(def.source_vertex).position;
        let next = self.wall_def(def.next_wall);
        let end = self.vertex_def(next.source_vertex).position;
        (end.x as i64 - start.x as i64, end.y as i64 - start.y as i64)
    }
}

/// Whether the cross product of `a` and `b` is positive, computed exactly.
pub fn wedge_positive(a: (i64, i64), b: (i64, i64)) -> (pos: bool)
    requires
        -0x1_0000_0000 <= a.0 <= 0x1_0000_0000,
        -0x1_0000_0000 <= a.1 <= 0x1_0000_0000,
        -0x1_0000_0000 <= b.0 <= 0x1_0000_0000,
        -0x1_0000_0000 <= b.1 <= 0x1_0000_0000,
    ensures
        pos == (wedge(a.0 as int, a.1 as int, b.0 as int, b.1 as int) > 0),
{
    let ax = a.0 as i128;
    let ay = a.1 as i128;
    let bx = b.0 as i128;
    let by = b.1 as i128;
    assert(-0x1_0000_0000_0000_0000 <= ax * by <= 0x1_0000_0000_0000_0000) by (nonlinear_arith)
        requires
            -0x1_0000_0000 <= ax <= 0x1_0000_0000,
            -0x1_0000_0000 <= by <= 0x1_0000_0000,
    ;
    assert(-0x1_0000_0000_0000_0000 <= ay * bx <= 0x1_0000_0000_0000_0000) by (nonlinear_arith)
        requires
            -0x1_0000_0000 <= ay <= 0x1_0000_0000,
            -0x1_0000_0000 <= bx <= 0x1_0000_0000,
    ;
    ax * by - ay * bx > 0
}

impl WorldGeometry {
    /// Every handle stored in the geometry names an element of it: each room's
    /// first wall; each wall's start vertex, next and previous walls, room and
    /// connected wall; each vertex's outgoing wall.
    #[verifier::opaque]
    pub open spec fn ids_valid(&self) -> bool {
        &&& forall|r: u64| #[trigger] self.has_room(r) ==> self.has_wall(self.room(r).first_wall.key())
        &&& forall|w: u64|
            #[trigger] self.has_wall(w) ==> {
                let d = self.wall(w);
                &&& self.has_vertex(d.source_vertex.key())
                &&& self.has_wall(d.next_wall.key())
                &&& self.has_wall(d.prev_wall.key())
                &&& self.has_room(d.room.key())
                &&& (d.connected_wall matches Some(t) ==> self.has_wall(t.key()))
            }
        &&& forall|v: u64| #[trigger] self.has_vertex(v) ==> self.has_wall(self.vertex(v).outgoing_wall.key())
    }

    /// Walking `next` from wall `w`, for at most `steps` walls, comes back to
    /// `first`, each wall on the way lying in room `r` and being the `prev` of
    /// the wall after it.
    #[verifier::opaque]
    pub open spec fn walk_closes(&self, r: u64, first: u64, w: u64, steps: nat) -> bool
        decreases steps,
    {
        if steps == 0 {
            false
        } else {
            let n = self.next_of(w);
            &&& self.room_of(w) == r
            &&& self.prev_of(n) == w
            &&& (n == first || self.walk_closes(r, first, n, (steps - 1) as nat))
        }
    }

    /// Walking from room `r`'s first wall comes back to it, as
    /// [`WorldGeometry::walk_closes`] says, within as many walls as the
    /// geometry has.
    pub open spec fn loop_closes(&self, r: u64) -> bool {
        let f = self.room(r).first_wall.key();
        self.walk_closes(r, f, f, self.num_walls_spec())
    }
}

/// A well-formed geometry has only valid handles.
pub proof fn lemma_wf_ids_valid(g: WorldGeometry)
    requires
        g.wf(),
    ensures
        g.ids_valid(),
{
    reveal(WorldGeometry::ids_valid);
    assert forall|r: u64| #[trigger] g.has_room(r) implies g.has_wall(g.room(r).first_wall.key()) by {
        g.lemma_room_ok(r);
        assert(g.has_wall(g.room_loop(r)[0]));
    }
    assert forall|w: u64| #[trigger] g.has_wall(w) implies {
        let d = g.wall(w);
        &&& g.has_vertex(d.source_vertex.key())
        &&& g.has_wall(d.next_wall.key())
        &&& g.has_wall(d.prev_wall.key())
        &&& g.has_room(d.room.key())
        &&& (d.connected_wall matches Some(t) ==> g.has_wall(t.key()))
    } by {
        g.lemma_wall_ok(w);
    }
    assert forall|v: u64| #[trigger] g.has_vertex(v) implies g.has_wall(g.vertex(v).outgoing_wall.key()) by {
        g.lemma_vertex_ok(v);
    }
}

/// What valid handles give for one wall.
proof fn lemma_ids_valid_wall(g: WorldGeometry, w: u64)
    requires
        g.ids_valid(),
        g.has_wall(w),
    ensures
        g.has_wall(g.next_of(w)),
        g.has_wall(g.prev_of(w)),
{
    reveal(WorldGeometry::ids_valid);
}

/// In a well-formed geometry the walk from the `k`-th wall of a room's loop
/// closes once it may take the rest of the loop.
proof fn lemma_walk_closes_from(g: WorldGeometry, r: u64, k: int, m: nat)
    requires
        g.wf(),
        g.has_room(r),
        0 <= k < g.room_loop(r).len(),
        m >= g.room_loop(r).len() - k,
    ensures
        g.walk_closes(r, g.room_loop(r)[0], g.room_loop(r)[k], m),
    decreases g.room_loop(r).len() - k,
{
    reveal(WorldGeometry::walk_closes);
    g.lemma_room_ok(r);
    let s = g.room_loop(r);
    let n = s.len() as int;
    assert(g.has_wall(s[k]));
    g.lemma_wall_ok(s[k]);
    if k == n - 1 {
        assert(succ(k, n) == 0);
    } else {
        assert(succ(k, n) == k + 1);
        lemma_walk_closes_from(g, r, k + 1, (m - 1) as nat);
    }
}

/// Every room of a well-formed geometry closes its loop.
pub proof fn lemma_wf_loop_closes(g: WorldGeometry, r: u64)
    requires
        g.wf(),
        g.has_room(r),
    ensures
        g.loop_closes(r),
{
    g.lemma_room_ok(r);
    g.lemma_loop_len(r);
    lemma_walk_closes_from(g, r, 0, g.num_walls_spec());
}

/// Checks that every handle stored in the geometry names an element of it
/// (see [`WorldGeometry::ids_valid`]).
pub fn validate_ids(geometry: &WorldGeometry) -> (res: Result<(), GeometryError>)
    ensures
        res is Ok <==> geometry.ids_valid(),
        res is Err ==> res == Err::<(), GeometryError>(GeometryError::InvalidId),
{
    reveal(WorldGeometry::ids_valid);
    let rooms = geometry.room_ids();
    let mut i: usize = 0;
    while i < rooms.len()
        invariant
            0 <= i <= rooms.len(),
            forall|j: int| 0 <= j < rooms@.len() ==> geometry.has_room(#[trigger] rooms@[j].key()),
            forall|j: int| 0 <= j < i ==> geometry.has_wall(geometry.room(#[trigger] rooms@[j].key()).first_wall.key()),
        decreases rooms.len() - i,
    {
        let room = rooms[i].get(geometry);
        if !room.first_wall.is_valid(geometry) {
            proof {
                reveal(WorldGeometry::ids_valid);
                assert(geometry.has_room(rooms@[i as int].key()));
            }
            return Err(GeometryError::InvalidId);
        }
        i = i + 1;
    }
    let walls = geometry.wall_ids();
    let mut i: usize = 0;
    while i < walls.len()
        invariant
            0 <= i <= walls.len(),
            forall|j: int| 0 <= j < walls@.len() ==> geometry.has_wall(#[trigger] walls@[j].key()),
            forall|j: int|
                0 <= j < i ==> {
                    let d = geometry.wall(#[trigger] walls@[j].key());
                    &&& geometry.has_vertex(d.source_vertex.key())
                    &&& geometry.has_wall(d.next_wall.key())
                    &&& geometry.has_wall(d.prev_wall.key())
                    &&& geometry.has_room(d.room.key())
                    &&& (d.connected_wall matches Some(t) ==> geometry.has_wall(t.key()))
                },
        decreases walls.len() - i,
    {
        let wall = walls[i].get(geometry);
        if !wall.source_vertex.is_valid(geometry) || !wall.next_wall.is_valid(geometry)
            || !wall.prev_wall.is_valid(geometry) || !wall.room.is_valid(geometry) {
            proof {
                reveal(WorldGeometry::ids_valid);
                assert(geometry.has_wall(walls@[i as int].key()));
            }
            return Err(GeometryError::InvalidId);
        }
        if let Some(connected_wall) = wall.connected_wall {
            if !connected_wall.is_valid(geometry) {
                proof {
                    reveal(WorldGeometry::ids_valid);
                assert(geometry.has_wall(walls@[i as int].key()));
                }
                return Err(GeometryError::InvalidId);
            }
        }
        i = i + 1;
    }
    let vertices = geometry.vertex_ids();
    let mut i: usize = 0;
    while i < vertices.len()
        invariant
            0 <= i <= vertices.len(),
            forall|j: int| 0 <= j < vertices@.len() ==> geometry.has_vertex(#[trigger] vertices@[j].key()),
            forall|j: int| 0 <= j < i ==> geometry.has_wall(geometry.vertex(#[trigger] vertices@[j].key()).outgoing_wall.key()),
        decreases vertices.len() - i,
    {
        let vertex = vertices[i].get(geometry);
        if !vertex.outgoing_wall.is_valid(geometry) {
            proof {
                reveal(WorldGeometry::ids_valid);
                assert(geometry.has_vertex(vertices@[i as int].key()));
            }
            return Err(GeometryError::InvalidId);
        }
        i = i + 1;
    }
    proof {
        assert forall|r: u64| #[trigger] geometry.has_room(r) implies geometry.has_wall(geometry.room(r).first_wall.key()) by {
            let j = choose|j: int| 0 <= j < rooms@.len() && #[trigger] rooms@[j].key() == r;
            assert(geometry.has_wall(geometry.room(rooms@[j].key()).first_wall.key()));
        }
        assert forall|w: u64| #[trigger] geometry.has_wall(w) implies {
            let d = geometry.wall(w);
            &&& geometry.has_vertex(d.source_vertex.key())
            &&& geometry.has_wall(d.next_wall.key())
            &&& geometry.has_wall(d.prev_wall.key())
            &&& geometry.has_room(d.room.key())
            &&& (d.connected_wall matches Some(t) ==> geometry.has_wall(t.key()))
        } by {
            let j = choose|j: int| 0 <= j < walls@.len() && #[trigger] walls@[j].key() == w;
            assert(walls@[j].key() == w);
        }
        assert forall|v: u64| #[trigger] geometry.has_vertex(v) implies geometry.has_wall(geometry.vertex(v).outgoing_wall.key()) by {
            let j = choose|j: int| 0 <= j < vertices@.len() && #[trigger] vertices@[j].key() == v;
            assert(geometry.has_wall(geometry.vertex(vertices@[j].key()).outgoing_wall.key()));
        }
    }
    Ok(())
}

/// Walks `next` from the room's first wall, for at most as many walls as the
/// geometry has: every wall must lie in the room and be the `prev` of the wall
/// after it, and the walk must come back to the first wall (see
/// [`WorldGeometry::loop_closes`]). The handles must be valid.
#[verifier::rlimit(30)]
pub fn validate_room_loop(geometry: &WorldGeometry, room: RoomId) -> (res: Result<(), GeometryError>)
    requires
        geometry.ids_valid(),
        geometry.has_room(room.key()),
    ensures
        res is Ok <==> geometry.loop_closes(room.key()),
        res is Err ==> res == Err::<(), GeometryError>(GeometryError::NotALoop),
        geometry.wf() ==> res is Ok,
{
    let ghost r = room.key();
    proof {
        if geometry.wf() {
            lemma_wf_loop_closes(*geometry, r);
        }
    }
    proof {
        reveal(WorldGeometry::ids_valid);
    }
    let first_wall = room.get(geometry).first_wall;
    let mut wall_it = first_wall;
    let count = geometry.num_walls();
    let mut k: usize = 0;
    while k < count
        invariant
            geometry.ids_valid(),
            r == room.key(),
            geometry.has_room(r),
            first_wall == geometry.room(r).first_wall,
            geometry.has_wall(wall_it.key()),
            count == geometry.num_walls_spec(),
            0 <= k <= count,
            geometry.loop_closes(r) == geometry.walk_closes(r, first_wall.key(), wall_it.key(), (count - k) as nat),
            geometry.wf() ==> geometry.loop_closes(r),
        decreases count - k,
    {
        proof {
            lemma_ids_valid_wall(*geometry, wall_it.key());
            reveal(WorldGeometry::walk_closes);
        }
        let def = wall_it.get(geometry);
        proof {
            lemma_room_id_eq(def.room, room);
        }
        if def.room != room {
            return Err(GeometryError::NotALoop);
        }
        let prev_wall = wall_it;
        let next = def.next_wall;
        let next_def = next.get(geometry);
        proof {
            lemma_wall_id_eq(next_def.prev_wall, prev_wall);
            lemma_wall_id_eq(next, first_wall);
        }
        if next_def.prev_wall != prev_wall {
            return Err(GeometryError::NotALoop);
        }
        if next == first_wall {
            return Ok(());
        }
        wall_it = next;
        k = k + 1;
    }
    proof {
        reveal(WorldGeometry::walk_closes);
    }
    Err(GeometryError::NotALoop)
}

/// Checks that the vertex's outgoing wall starts at it. The vertex and its
/// outgoing wall must exist.
pub fn validate_vertex(geometry: &WorldGeometry, vertex: VertexId) -> (res: Result<(), GeometryError>)
    requires
        geometry.has_vertex(vertex.key()),
        geometry.has_wall(geometry.vertex(vertex.key()).outgoing_wall.key()),
    ensures
        res is Ok <==> geometry.wall(geometry.vertex(vertex.key()).outgoing_wall.key()).source_vertex == vertex,
        res is Err ==> res == Err::<(), GeometryError>(GeometryError::VertexMismatch),
        geometry.wf() ==> res is Ok,
{
    proof {
        if geometry.wf() {
            geometry.lemma_vertex_ok(vertex.key());
            lemma_vertex_id_eq(geometry.wall(geometry.vertex(vertex.key()).outgoing_wall.key()).source_vertex, vertex);
        }
    }
    let outgoing_wall = vertex.get(geometry).outgoing_wall;
    let source_vertex = outgoing_wall.get(geometry).source_vertex;
    if source_vertex != vertex {
        return Err(GeometryError::VertexMismatch);
    }
    Ok(())
}

/// Checks that no corner of `room` is concave, walking from its first wall;
/// the first concave corner met is reported with the walls on both sides of it.
#[verifier::rlimit(30)]
pub fn validate_room_convex(geometry: &WorldGeometry, room: RoomId) -> (res: Result<(), GeometryError>)
    requires
        geometry.wf(),
        geometry.has_room(room.key()),
    ensures
        res is Ok <==> geometry.room_convex(room.key()),
        res matches Err(e) ==> e matches GeometryError::Concave(a, b) && b == geometry.wall(a.key()).next_wall
            && geometry.first_concave_at(
            geometry.room_loop(room.key()),
            geometry.room_loop(room.key()).index_of(a.key()),
        ) && geometry.room_loop(room.key()).contains(a.key()),
{
    let ghost r = room.key();
    let ghost s = geometry.room_loop(r);
    proof {
        geometry.lemma_room_ok(r);
    }
    let first_wall = room.first_wall(geometry);
    let mut wall_it = first_wall;
    let ghost mut k: int = 0;
    loop
        invariant
            geometry.wf(),
            geometry.room_ok(r),
            r == room.key(),
            s == geometry.room_loop(r),
            first_wall.key() == s[0],
            0 <= k < s.len(),
            wall_it.key() == s[k],
            forall|j: int| 0 <= j < k ==> !geometry.concave_after(#[trigger] s[j]),
        decreases s.len() - k,
    {
        proof {
            assert(geometry.has_wall(s[k]));
            geometry.lemma_wall_ok(s[k]);
        }
        let next_wall = wall_it.next_wall(geometry);
        if is_next_vertex_concave(geometry, wall_it) {
            proof {
                assert(s.index_of(s[k]) == k) by {
                    assert(s.contains(s[k]));
                    let m = s.index_of(s[k]);
                    assert(s[m] == s[k]);
                }
            }
            return Err(GeometryError::Concave(wall_it, next_wall));
        }
        proof {
            lemma_wall_id_eq(next_wall, first_wall);
            if k + 1 == s.len() {
                assert(succ(k, s.len() as int) == 0);
            } else {
                assert(succ(k, s.len() as int) == k + 1);
            }
        }
        if next_wall == first_wall {
            return Ok(());
        }
        wall_it = next_wall;
        proof {
            k = k + 1;
        }
    }
}

/// Checks the whole geometry: its handles, its room loops, its rooms'
/// convexity and its vertices. For a well-formed geometry, only convexity can
/// fail. Every geometry this library makes is well formed: each constructor
/// gives a well-formed geometry and each edit keeps it so.
pub fn validate_geometry(geometry: &WorldGeometry) -> (res: Result<(), GeometryError>)
    requires
        geometry.wf(),
    ensures
        res is Ok <==> geometry.all_rooms_convex(),
        res matches Err(e) ==> e matches GeometryError::Concave(a, b) && geometry.has_wall(a.key())
            && geometry.concave_after(a.key()) && b == geometry.wall(a.key()).next_wall,
{
    proof {
        lemma_wf_ids_valid(*geometry);
    }
    match validate_ids(geometry) {
        Ok(()) => {},
        Err(e) => return Err(e),
    }
    let rooms = geometry.room_ids();
    let mut i: usize = 0;
    while i < rooms.len()
        invariant
            geometry.wf(),
            geometry.ids_valid(),
            0 <= i <= rooms.len(),
            forall|j: int| 0 <= j < rooms@.len() ==> geometry.has_room(#[trigger] rooms@[j].key()),
            forall|j: int| 0 <= j < i ==> geometry.room_convex(#[trigger] rooms@[j].key()),
        decreases rooms.len() - i,
    {
        let room_id = rooms[i];
        match validate_room_loop(geometry, room_id) {
            Ok(()) => {},
            Err(e) => return Err(e),
        }
        match validate_room_convex(geometry, room_id) {
            Ok(()) => {},
            Err(e) => {
                proof {
                    let ghost s = geometry.room_loop(room_id.key());
                    geometry.lemma_room_ok(room_id.key());
                    if let GeometryError::Concave(a, b) = e {
                        let m = s.index_of(a.key());
                        assert(geometry.has_wall(s[m]));
                    }
                    assert(!geometry.room_convex(room_id.key()));
                }
                return Err(e);
            },
        }
        i = i + 1;
    }
    proof {
        assert forall|r: u64| #[trigger] geometry.has_room(r) implies geometry.room_convex(r) by {
            let j = choose|j: int| 0 <= j < rooms@.len() && #[trigger] rooms@[j].key() == r;
            assert(geometry.room_convex(rooms@[j].key()));
        }
    }
    let vertices = geometry.vertex_ids();
    let mut i: usize = 0;
    while i < vertices.len()
        invariant
            geometry.wf(),
            geometry.all_rooms_convex(),
            0 <= i <= vertices.len(),
            forall|j: int| 0 <= j < vertices@.len() ==> geometry.has_vertex(#[trigger] vertices@[j].key()),
        decreases vertices.len() - i,
    {
        proof {
            geometry.lemma_vertex_ok(vertices@[i as int].key());
        }
        match validate_vertex(geometry, vertices[i]) {
            Ok(()) => {},
            Err(e) => return Err(e),
        }
        i = i + 1;
    }
    Ok(())
}

} // verus!
