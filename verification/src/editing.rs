//! The world editor's geometry edits: each command is checked, then carried
//! out with the geometry's own operations.
use vstd::prelude::*;
use crate::defs::{Color, RoomDef, Vec2i, VertexDef, WallDef};
use crate::editor::Item;
use crate::geometry::{split_wall_walls, GeometryError, WorldGeometry};
use crate::geometry_undo::{edit_entries, lemma_redo_one, lemma_redo_room_move, recordable, redo_all};
use crate::ids::{is_key, lemma_room_id_eq, lemma_vertex_id_eq, lemma_wall_id_eq, slot_index, RoomId, VertexId, WallId};
use crate::slots::MAX_SLOT_COUNT;

verus! {

/// Wall `x` loses its connection when the room's walls `s` are disconnected:
/// it is one of them, or it was connected to one of them.
pub open spec fn cut_by(g0: WorldGeometry, s: Seq<u64>, x: u64) -> bool {
    s.contains(x) || (g0.wall(x).connected_wall matches Some(y) && s.contains(y.key()))
}

impl WorldGeometry {
    /// The geometry is `g0` with the walls of `s` and their partners
    /// disconnected, and nothing else changed.
    pub open spec fn disconnected_from(&self, g0: &WorldGeometry, s: Seq<u64>) -> bool {
        &&& self.vertex_map() == g0.vertex_map()
        &&& self.room_map() == g0.room_map()
        &&& self.room_loops() == g0.room_loops()
        &&& self.wall_map().dom() == g0.wall_map().dom()
        &&& forall|x: u64|
            #[trigger] g0.has_wall(x) ==> self.wall(x) == WallDef {
                connected_wall: if cut_by(*g0, s, x) {
                    None
                } else {
                    g0.wall(x).connected_wall
                },
                ..g0.wall(x)
            }
    }

    /// Disconnects every wall of `room` (and so every wall connected to one).
    pub fn disconnect_room(&mut self, room: RoomId)
        requires
            old(self).wf(),
            old(self).has_room(room.key()),
        ensures
            final(self).wf(),
            final(self).disconnected_from(old(self), old(self).room_loop(room.key())),
    {
        let ghost g0 = *old(self);
        let ghost s = g0.room_loop(room.key());
        let walls = self.room_walls(room);
        proof {
            g0.lemma_room_ok(room.key());
            assert(self.disconnected_from(&g0, s.take(0))) by {
                assert forall|x: u64| #[trigger] g0.has_wall(x) implies !cut_by(g0, s.take(0), x) by {
                    if s.take(0).contains(x) {
                        let j = choose|j: int| 0 <= j < 0 && s.take(0)[j] == x;
                    }
                    if let Some(y) = g0.wall(x).connected_wall {
                        if s.take(0).contains(y.key()) {
                            let j = choose|j: int| 0 <= j < 0 && s.take(0)[j] == y.key();
                        }
                    }
                }
            }
        }
        let mut i: usize = 0;
        while i < walls.len()
            invariant
                self.wf(),
                g0.wf(),
                g0.room_ok(room.key()),
                s == g0.room_loop(room.key()),
                walls@.len() == s.len(),
                forall|j: int| 0 <= j < walls@.len() ==> #[trigger] walls@[j].key() == s[j],
                0 <= i <= walls@.len(),
                self.disconnected_from(&g0, s.take(i as int)),
            decreases walls@.len() - i,
        {
            let ghost g = *self;
            let w = walls[i];
            proof {
                assert(g0.has_wall(s[i as int]));
            }
            let res = self.connect_wall(w, None);
            proof {
                let t0 = s.take(i as int);
                let t1 = s.take(i as int + 1);
                assert(t1 =~= t0.push(w.key()));
                assert forall|x: u64| #[trigger] g0.has_wall(x) implies self.wall(x) == (WallDef {
                    connected_wall: if cut_by(g0, t1, x) {
                        None
                    } else {
                        g0.wall(x).connected_wall
                    },
                    ..g0.wall(x)
                }) by {
                    assert(g.has_wall(x));
                    assert(t1.contains(w.key())) by {
                        assert(t1[i as int] == w.key());
                    }
                    if t0.contains(x) {
                        let j = choose|j: int| 0 <= j < t0.len() && t0[j] == x;
                        assert(t1[j] == x);
                    }
                    if let Some(y) = g0.wall(x).connected_wall {
                        if t0.contains(y.key()) {
                            let j = choose|j: int| 0 <= j < t0.len() && t0[j] == y.key();
                            assert(t1[j] == y.key());
                        }
                        if t1.contains(y.key()) && !t0.contains(y.key()) {
                            let j = choose|j: int| 0 <= j < t1.len() && t1[j] == y.key();
                            if j < t0.len() {
                                assert(t0[j] == y.key());
                            }
                        }
                    }
                    if t1.contains(x) && !t0.contains(x) {
                        let j = choose|j: int| 0 <= j < t1.len() && t1[j] == x;
                        if j < t0.len() {
                            assert(t0[j] == x);
                        }
                    }
                }
            }
            i = i + 1;
        }
        proof {
            assert(s.take(s.len() as int) =~= s);
        }
    }
}

/// `v` is the vertex where one of the walls `s` starts.
pub open spec fn starts_wall_of(g: WorldGeometry, s: Seq<u64>, v: u64) -> bool {
    exists|j: int| 0 <= j < s.len() && #[trigger] g.wall(s[j]).source_vertex.key() == v
}

impl WorldGeometry {
    /// No wall outside room `r` starts at a vertex where a wall of `r` starts.
    pub open spec fn room_vertices_unshared(&self, r: u64) -> bool {
        forall|w: u64, x: u64|
            #[trigger] self.has_wall(w) && #[trigger] self.room_loop(r).contains(x) && !self.room_loop(r).contains(w)
                ==> self.wall(w).source_vertex.key() != self.wall(x).source_vertex.key()
    }

    /// A wall belongs to the loop of room `r` exactly when it lies in `r`.
    proof fn lemma_in_room_loop(&self, r: u64, w: u64)
        requires
            self.wf(),
            self.has_room(r),
            self.has_wall(w),
        ensures
            self.room_loop(r).contains(w) <==> self.room_of(w) == r,
    {
        self.lemma_loop_from(w);
        self.lemma_room_ok(r);
        let u = self.loop_from(w);
        assert(u.contains(u[0]));
        if self.room_loop(r).contains(w) {
            let k = choose|k: int| 0 <= k < self.room_loop(r).len() && self.room_loop(r)[k] == w;
            assert(self.room_of(self.room_loop(r)[k]) == r);
        }
    }

    /// Whether no wall outside `room` starts at a vertex where a wall of
    /// `room` starts, as removing the room asks.
    pub fn room_vertices_are_unshared(&self, room: RoomId) -> (b: bool)
        requires
            self.wf(),
            self.has_room(room.key()),
        ensures
            b == self.room_vertices_unshared(room.key()),
    {
        let ghost r = room.key();
        let ghost s = self.room_loop(r);
        let vertices = self.room_vertices(room);
        let walls = self.wall_ids();
        let mut i: usize = 0;
        while i < walls.len()
            invariant
                self.wf(),
                self.has_room(r),
                r == room.key(),
                s == self.room_loop(r),
                0 <= i <= walls.len(),
                vertices@.len() == s.len(),
                forall|k: int| 0 <= k < vertices@.len() ==> #[trigger] vertices@[k] == self.wall(s[k]).source_vertex,
                forall|j: int| 0 <= j < walls@.len() ==> self.has_wall(#[trigger] walls@[j].key()),
                forall|j: int, x: u64|
                    0 <= j < i && #[trigger] s.contains(x) && !s.contains(#[trigger] walls@[j].key()) ==> self.wall(
                        walls@[j].key(),
                    ).source_vertex.key() != self.wall(x).source_vertex.key(),
            decreases walls.len() - i,
        {
            let w = walls[i];
            proof {
                self.lemma_in_room_loop(r, w.key());
            }
            let wr = w.room(self);
            proof {
                lemma_room_id_eq(wr, room);
            }
            if wr != room {
                let v = w.vertex(self);
                let mut k: usize = 0;
                while k < vertices.len()
                    invariant
                        0 <= k <= vertices@.len(),
                        forall|k2: int| 0 <= k2 < k ==> #[trigger] vertices@[k2] != v,
                        vertices@.len() == s.len(),
                        forall|k2: int| 0 <= k2 < vertices@.len() ==> #[trigger] vertices@[k2] == self.wall(s[k2]).source_vertex,
                        self.has_wall(w.key()),
                        !s.contains(w.key()),
                        v == self.wall(w.key()).source_vertex,
                        s == self.room_loop(r),
                        r == room.key(),
                    decreases vertices@.len() - k,
                {
                    if vertices[k] == v {
                        proof {
                            assert(s.contains(s[k as int]));
                            assert(self.has_wall(w.key()));
                            assert(!s.contains(w.key()));
                            assert(vertices@[k as int] == self.wall(s[k as int]).source_vertex);
                            assert(self.wall(w.key()).source_vertex.key() == self.wall(s[k as int]).source_vertex.key());
                            assert(!self.room_vertices_unshared(r));
                        }
                        return false;
                    }
                    k = k + 1;
                }
                proof {
                    assert forall|x: u64| #[trigger] s.contains(x) implies self.wall(w.key()).source_vertex.key() != self.wall(
                        x,
                    ).source_vertex.key() by {
                        let k2 = choose|k2: int| 0 <= k2 < s.len() && s[k2] == x;
                        assert(vertices@[k2] != v);
                        lemma_vertex_id_eq(vertices@[k2], v);
                    }
                }
            }
            i = i + 1;
        }
        proof {
            assert forall|w: u64, x: u64|
                #[trigger] self.has_wall(w) && #[trigger] s.contains(x) && !s.contains(w) implies self.wall(w).source_vertex.key()
                    != self.wall(x).source_vertex.key() by {
                let j = choose|j: int| 0 <= j < walls@.len() && #[trigger] walls@[j].key() == w;
                assert(s.contains(walls@[j].key()) == s.contains(w));
            }
        }
        true
    }

    /// The geometry is `g0` without room `r`: the room, its walls and the
    /// vertices they start at are gone, the walls that were connected to its
    /// walls are disconnected, and nothing else changed.
    pub open spec fn removed_room_from(&self, g0: &WorldGeometry, r: u64) -> bool {
        let s = g0.room_loop(r);
        &&& self.room_map() == g0.room_map().remove(r)
        &&& self.room_loops() == g0.room_loops().remove(r)
        &&& forall|w: u64| #[trigger] self.has_wall(w) <==> g0.has_wall(w) && !s.contains(w)
        &&& forall|w: u64|
            #[trigger] self.has_wall(w) ==> self.wall(w) == WallDef {
                connected_wall: if cut_by(*g0, s, w) {
                    None
                } else {
                    g0.wall(w).connected_wall
                },
                ..g0.wall(w)
            }
        &&& forall|v: u64| #[trigger] self.has_vertex(v) <==> g0.has_vertex(v) && !starts_wall_of(*g0, s, v)
        &&& forall|v: u64| #[trigger] self.has_vertex(v) ==> self.vertex(v) == g0.vertex(v)
    }
}

/// A wall lies in the loop of its own room and in no other.
proof fn lemma_loop_member_room(g: WorldGeometry, q: u64, w: u64)
    requires
        g.wf(),
        g.has_room(q),
        g.room_loop(q).contains(w),
    ensures
        g.has_wall(w),
        g.room_of(w) == q,
{
    g.lemma_room_ok(q);
    let i = choose|i: int| 0 <= i < g.room_loop(q).len() && g.room_loop(q)[i] == w;
    assert(g.has_wall(g.room_loop(q)[i]));
}

/// The wall after `w` and the wall before it lie in the room of `w`.
proof fn lemma_neighbours_same_room(g: WorldGeometry, w: u64)
    requires
        g.wf(),
        g.has_wall(w),
    ensures
        g.has_wall(g.next_of(w)),
        g.has_wall(g.prev_of(w)),
        g.room_of(g.next_of(w)) == g.room_of(w),
        g.room_of(g.prev_of(w)) == g.room_of(w),
{
    g.lemma_wall_ok(w);
    let q = g.room_of(w);
    g.lemma_room_ok(q);
    let s = g.room_loop(q);
    let i = choose|i: int| 0 <= i < s.len() && s[i] == w;
    assert(g.has_wall(s[i]));
    let n = s[crate::geometry::succ(i, s.len() as int)];
    assert(g.has_wall(n) && g.room_of(n) == q);
    let p = g.prev_of(w);
    g.lemma_wall_ok(p);
    let qp = g.room_of(p);
    g.lemma_room_ok(qp);
    let sp = g.room_loop(qp);
    let k = choose|k: int| 0 <= k < sp.len() && sp[k] == p;
    assert(g.has_wall(sp[k]));
    let m = sp[crate::geometry::succ(k, sp.len() as int)];
    assert(g.has_wall(m) && g.room_of(m) == qp);
    assert(m == w);
}

/// Sizes and keys of what is left after a room is taken out.
proof fn lemma_removed_room_keys(g0: WorldGeometry, g: WorldGeometry, r: u64)
    requires
        g0.wf(),
        g0.has_room(r),
        g.removed_room_from(&g0, r),
    ensures
        g.keys_wf(),
{
    let s = g0.room_loop(r);
    g0.lemma_wf_basics();
    assert forall|k: u64| g.wall_map().dom().contains(k) implies g0.wall_map().dom().contains(k) by {
        assert(g.has_wall(k));
    }
    assert forall|k: u64| g.vertex_map().dom().contains(k) implies g0.vertex_map().dom().contains(k) by {
        assert(g.has_vertex(k));
    }
    assert(g.room_map().dom().subset_of(g0.room_map().dom()));
    vstd::set_lib::lemma_len_subset(g.wall_map().dom(), g0.wall_map().dom());
    vstd::set_lib::lemma_len_subset(g.vertex_map().dom(), g0.vertex_map().dom());
    vstd::set_lib::lemma_len_subset(g.room_map().dom(), g0.room_map().dom());
    reveal(WorldGeometry::keys_wf);
    assert(g.room_loops().dom() =~= g.room_map().dom());
    assert forall|k: u64| #[trigger] g.has_vertex(k) implies is_key(k) by {
        assert(g0.has_vertex(k));
    }
    assert forall|k: u64| #[trigger] g.has_wall(k) implies is_key(k) by {
        assert(g0.has_wall(k));
    }
    assert forall|k: u64| #[trigger] g.has_room(k) implies is_key(k) by {
        assert(g0.has_room(k));
    }
    assert forall|a: u64, b: u64| #[trigger] g.has_room(a) && #[trigger] g.has_room(b) && a != b implies slot_index(a)
        != slot_index(b) by {
        assert(g0.has_room(a) && g0.has_room(b));
    }
}

/// The walls of the removed room are exactly those whose room it was.
proof fn lemma_removed_walls_are_the_rooms(g0: WorldGeometry, r: u64, w: u64)
    requires
        g0.wf(),
        g0.has_room(r),
        g0.has_wall(w),
    ensures
        g0.room_loop(r).contains(w) <==> g0.room_of(w) == r,
{
    g0.lemma_wall_ok(w);
    if g0.room_loop(r).contains(w) {
        lemma_loop_member_room(g0, r, w);
    }
}

/// The walls left after a room is taken out are well formed.
proof fn lemma_removed_room_walls(g0: WorldGeometry, g: WorldGeometry, r: u64)
    requires
        g0.wf(),
        g0.has_room(r),
        g0.room_vertices_unshared(r),
        g.removed_room_from(&g0, r),
    ensures
        forall|w: u64| #[trigger] g.has_wall(w) ==> g.wall_ok(w),
{
    let s = g0.room_loop(r);
    assert forall|w: u64| #[trigger] g.has_wall(w) implies g.wall_ok(w) by {
        assert(g0.has_wall(w) && !s.contains(w));
        g0.lemma_wall_ok(w);
        let d = g0.wall(w);
        lemma_removed_walls_are_the_rooms(g0, r, w);
        let src = d.source_vertex.key();
        if starts_wall_of(g0, s, src) {
            let j = choose|j: int| 0 <= j < s.len() && #[trigger] g0.wall(s[j]).source_vertex.key() == src;
            assert(s.contains(s[j]));
        }
        assert(g.has_vertex(src));
        assert(g.has_room(d.room.key()));
        lemma_neighbours_same_room(g0, w);
        let n = g0.next_of(w);
        let p = g0.prev_of(w);
        lemma_removed_walls_are_the_rooms(g0, r, n);
        lemma_removed_walls_are_the_rooms(g0, r, p);
        assert(g.has_wall(n));
        assert(g.has_wall(p));
        assert(g.room_loop(d.room.key()) == g0.room_loop(d.room.key()));
        if let Some(t) = g.wall(w).connected_wall {
            assert(!cut_by(g0, s, w));
            assert(g0.wall(w).connected_wall == Some(t));
            assert(g0.has_wall(t.key()));
            assert(g.has_wall(t.key()));
            assert(!cut_by(g0, s, t.key()));
        }
    }
}

/// The rooms and vertices left after a room is taken out are well formed.
proof fn lemma_removed_room_rooms_vertices(g0: WorldGeometry, g: WorldGeometry, r: u64)
    requires
        g0.wf(),
        g0.has_room(r),
        g.removed_room_from(&g0, r),
    ensures
        forall|q: u64| #[trigger] g.has_room(q) ==> g.room_ok(q),
        forall|v: u64| #[trigger] g.has_vertex(v) ==> g.vertex_ok(v),
{
    let s = g0.room_loop(r);
    assert forall|q: u64| #[trigger] g.has_room(q) implies g.room_ok(q) by {
        assert(g0.has_room(q) && q != r);
        g0.lemma_room_ok(q);
        let sq = g0.room_loop(q);
        assert(g.room_loop(q) == sq);
        assert forall|i: int| 0 <= i < sq.len() implies {
            &&& g.has_wall(#[trigger] sq[i])
            &&& g.room_of(sq[i]) == q
            &&& g.next_of(sq[i]) == sq[crate::geometry::succ(i, sq.len() as int)]
        } by {
            let w = sq[i];
            assert(g0.has_wall(w));
            assert(g0.room_of(w) == q);
            assert(g0.next_of(w) == sq[crate::geometry::succ(i, sq.len() as int)]);
            lemma_removed_walls_are_the_rooms(g0, r, w);
            assert(!s.contains(w));
            assert(g.has_wall(w));
            assert(g.wall(w).room == g0.wall(w).room);
            assert(g.wall(w).next_wall == g0.wall(w).next_wall);
        }
    }
    assert forall|v: u64| #[trigger] g.has_vertex(v) implies g.vertex_ok(v) by {
        assert(g0.has_vertex(v) && !starts_wall_of(g0, s, v));
        g0.lemma_vertex_ok(v);
        let o = g0.vertex(v).outgoing_wall.key();
        if s.contains(o) {
            let j = choose|j: int| 0 <= j < s.len() && s[j] == o;
            assert(g0.wall(s[j]).source_vertex.key() == v);
        }
        assert(g.has_wall(o));
    }
}

/// What is left after a room is taken out as [`WorldGeometry::removed_room_from`]
/// says is well formed again, when no other wall starts where its walls start.
proof fn lemma_removed_room_wf(g0: WorldGeometry, g: WorldGeometry, r: u64)
    requires
        g0.wf(),
        g0.has_room(r),
        g0.room_vertices_unshared(r),
        g.removed_room_from(&g0, r),
    ensures
        g.wf(),
{
    lemma_removed_room_keys(g0, g, r);
    lemma_removed_room_walls(g0, g, r);
    lemma_removed_room_rooms_vertices(g0, g, r);
    reveal(WorldGeometry::walls_wf);
    reveal(WorldGeometry::rooms_wf);
    reveal(WorldGeometry::vertices_wf);
}

/// A prefix one longer holds one more element.
proof fn lemma_take_one_more(s: Seq<u64>, i: int, w: u64)
    requires
        0 <= i < s.len(),
    ensures
        s.take(i + 1).contains(w) <==> (s.take(i).contains(w) || w == s[i]),
{
    let t0 = s.take(i);
    let t1 = s.take(i + 1);
    if t1.contains(w) {
        let j = choose|j: int| 0 <= j < t1.len() && t1[j] == w;
        if j < i {
            assert(t0[j] == w);
        }
    }
    if t0.contains(w) {
        let j = choose|j: int| 0 <= j < t0.len() && t0[j] == w;
        assert(t1[j] == w);
    }
    if w == s[i] {
        assert(t1[i] == w);
    }
}

/// A prefix one longer starts at one more vertex.
pub proof fn lemma_starts_one_more(g0: WorldGeometry, s: Seq<u64>, i: int, v: u64)
    requires
        0 <= i < s.len(),
    ensures
        starts_wall_of(g0, s.take(i + 1), v) <==> (starts_wall_of(g0, s.take(i), v) || g0.wall(s[i]).source_vertex.key() == v),
{
    let t0 = s.take(i);
    let t1 = s.take(i + 1);
    if starts_wall_of(g0, t1, v) {
        let j = choose|j: int| 0 <= j < t1.len() && #[trigger] g0.wall(t1[j]).source_vertex.key() == v;
        if j < i {
            assert(t0[j] == t1[j]);
            assert(starts_wall_of(g0, t0, v));
        }
    }
    if starts_wall_of(g0, t0, v) {
        let j = choose|j: int| 0 <= j < t0.len() && #[trigger] g0.wall(t0[j]).source_vertex.key() == v;
        assert(t1[j] == t0[j]);
        assert(starts_wall_of(g0, t1, v));
    }
    if g0.wall(s[i]).source_vertex.key() == v {
        assert(t1[i] == s[i]);
        assert(starts_wall_of(g0, t1, v));
    }
}

impl WorldGeometry {
    /// Takes `room` out of the geometry, with its walls and the vertices they
    /// start at; walls connected to its walls are disconnected. No other wall
    /// may start where one of its walls starts.
    #[verifier::rlimit(40)]
    pub fn remove_room(&mut self, room: RoomId)
        requires
            old(self).wf(),
            old(self).has_room(room.key()),
            old(self).room_vertices_unshared(room.key()),
        ensures
            final(self).wf(),
            final(self).removed_room_from(old(self), room.key()),
    {
        let ghost g0 = *old(self);
        let ghost r = room.key();
        let ghost s = g0.room_loop(r);
        let walls = self.room_walls(room);
        let vertices = self.room_vertices(room);
        proof {
            g0.lemma_room_ok(r);
        }
        self.disconnect_room(room);
        let ghost g1 = *self;
        let mut i: usize = 0;
        while i < walls.len()
            invariant
                g0.wf(),
                g0.room_ok(r),
                s == g0.room_loop(r),
                walls@.len() == s.len(),
                vertices@.len() == s.len(),
                forall|j: int| 0 <= j < walls@.len() ==> #[trigger] walls@[j].key() == s[j],
                forall|j: int| 0 <= j < vertices@.len() ==> #[trigger] vertices@[j] == g0.wall(s[j]).source_vertex,
                g1.disconnected_from(&g0, s),
                0 <= i <= walls@.len(),
                self.room_map() == g0.room_map(),
                self.room_loops() == g0.room_loops(),
                forall|w: u64| #[trigger] self.has_wall(w) <==> g0.has_wall(w) && !s.take(i as int).contains(w),
                forall|w: u64| #[trigger] self.has_wall(w) ==> self.wall(w) == g1.wall(w),
                forall|v: u64| #[trigger] self.has_vertex(v) <==> g0.has_vertex(v) && !starts_wall_of(g0, s.take(i as int), v),
                forall|v: u64| #[trigger] self.has_vertex(v) ==> self.vertex(v) == g0.vertex(v),
            decreases walls@.len() - i,
        {
            let ghost before = *self;
            self.remove_vertex_entry(vertices[i]);
            self.remove_wall_entry(walls[i]);
            proof {
                assert(walls@[i as int].key() == s[i as int]);
                assert(vertices@[i as int].key() == g0.wall(s[i as int]).source_vertex.key());
                assert forall|w: u64| #[trigger] self.has_wall(w) <==> g0.has_wall(w) && !s.take(i as int + 1).contains(w) by {
                    assert(self.has_wall(w) == (before.has_wall(w) && w != s[i as int]));
                    lemma_take_one_more(s, i as int, w);
                }
                assert forall|v: u64| #[trigger] self.has_vertex(v) <==> g0.has_vertex(v) && !starts_wall_of(g0, s.take(i as int + 1), v) by {
                    assert(self.has_vertex(v) == (before.has_vertex(v) && v != g0.wall(s[i as int]).source_vertex.key()));
                    lemma_starts_one_more(g0, s, i as int, v);
                }
                assert forall|w: u64| #[trigger] self.has_wall(w) implies self.wall(w) == g1.wall(w) by {
                    assert(before.has_wall(w));
                }
                assert forall|v: u64| #[trigger] self.has_vertex(v) implies self.vertex(v) == g0.vertex(v) by {
                    assert(before.has_vertex(v));
                }
            }
            i = i + 1;
        }
        let ghost mid = *self;
        proof {
            assert(s.take(s.len() as int) =~= s);
        }
        self.remove_room_entry(room);
        proof {
            assert forall|w: u64| #[trigger] self.has_wall(w) implies self.wall(w) == (WallDef {
                connected_wall: if cut_by(g0, s, w) {
                    None
                } else {
                    g0.wall(w).connected_wall
                },
                ..g0.wall(w)
            }) by {
                assert(mid.has_wall(w));
                assert(g0.has_wall(w));
            }
            assert forall|w: u64| #[trigger] self.has_wall(w) <==> g0.has_wall(w) && !s.contains(w) by {
                assert(self.has_wall(w) == mid.has_wall(w));
            }
            assert forall|v: u64| #[trigger] self.has_vertex(v) <==> g0.has_vertex(v) && !starts_wall_of(g0, s, v) by {
                assert(self.has_vertex(v) == mid.has_vertex(v));
            }
            assert forall|v: u64| #[trigger] self.has_vertex(v) implies self.vertex(v) == g0.vertex(v) by {
                assert(mid.has_vertex(v));
            }
            assert(self.removed_room_from(&g0, r));
            lemma_removed_room_wf(g0, *self, r);
        }
    }
}

/// The geometry commands of the world editor.
#[derive(Clone, Copy, PartialEq, Eq, Structural, Debug)]
pub enum GeometryEditCmd {
    /// Moves a vertex, both ends of a wall, or every vertex of a room by the
    /// offset; each vertex moves once.
    TranslateItem(Item, Vec2i),
    SetCeilingColor(RoomId, Color),
    SetCeilingHeight(RoomId, u32),
    SetFloorColor(RoomId, Color),
    SetWallColor(WallId, Color),
    SetHorizontalWallOffset(WallId, i32),
    SetVerticalWallOffset(WallId, i32),
    RemoveRoom(RoomId),
    DisconnectRoom(RoomId),
    SplitRoom(WallId, WallId),
    ConnectWall(WallId, WallId),
    DisconnectWall(WallId),
    SplitWall(WallId, Vec2i),
    SplitVertex(VertexId),
}

/// `p` moved by `d`.
pub open spec fn moved(p: Vec2i, d: Vec2i) -> (int, int) {
    (p.x + d.x, p.y + d.y)
}

/// Both coordinates of `p` moved by `k` times `d` stay in `i32`.
pub open spec fn move_fits(p: Vec2i, d: Vec2i, k: int) -> bool {
    i32::MIN <= p.x + k * d.x <= i32::MAX && i32::MIN <= p.y + k * d.y <= i32::MAX
}

/// What carrying out `cmd` on a well-formed geometry cannot do without panicking
/// or running out of slots: every handle a command dereferences without
/// checking names an element, and moved coordinates stay in range. Moving the
/// player spawn is no command at all: the editor has no way to do it.
pub open spec fn edit_allowed(g: WorldGeometry, cmd: GeometryEditCmd) -> bool {
    &&& g.num_walls_spec() + 2 < MAX_SLOT_COUNT
    &&& g.num_rooms_spec() + 1 < MAX_SLOT_COUNT
    &&& g.num_vertices_spec() + 1 < MAX_SLOT_COUNT
    &&& match cmd {
        GeometryEditCmd::TranslateItem(item, d) => match item {
            Item::Vertex(v) => g.has_vertex(v.key()) ==> move_fits(g.vertex(v.key()).position, d, 1),
            Item::Wall(w) => g.has_wall(w.key()) && {
                let a = g.wall(w.key()).source_vertex.key();
                let b = g.wall(g.next_of(w.key())).source_vertex.key();
                move_fits(g.vertex(a).position, d, 1) && move_fits(g.vertex(b).position, d, 1)
            },
            Item::Room(r) => g.has_room(r.key()) && forall|v: u64|
                #[trigger] starts_wall_of(g, g.room_loop(r.key()), v) ==> move_fits(g.vertex(v).position, d, 1),
            Item::Object(_) => true,
            Item::PlayerSpawn => false,
        },
        GeometryEditCmd::RemoveRoom(r) => g.has_room(r.key()) ==> g.room_vertices_unshared(r.key()),
        GeometryEditCmd::DisconnectRoom(r) => g.has_room(r.key()),
        GeometryEditCmd::SplitWall(w, _) => g.has_wall(w.key()),
        GeometryEditCmd::SplitVertex(v) => g.has_vertex(v.key()),
        _ => true,
    }
}

/// Moves vertex `v` by `d`.
fn translate_vertex(geometry: &mut WorldGeometry, v: VertexId, d: Vec2i)
    requires
        old(geometry).wf(),
        old(geometry).has_vertex(v.key()),
        move_fits(old(geometry).vertex(v.key()).position, d, 1),
    ensures
        final(geometry).wf(),
        final(geometry).vertex_map() == old(geometry).vertex_map().insert(
            v.key(),
            VertexDef {
                position: Vec2i {
                    x: (old(geometry).vertex(v.key()).position.x + d.x) as i32,
                    y: (old(geometry).vertex(v.key()).position.y + d.y) as i32,
                },
                ..old(geometry).vertex(v.key())
            },
        ),
        final(geometry).wall_map() == old(geometry).wall_map(),
        final(geometry).room_map() == old(geometry).room_map(),
        final(geometry).room_loops() == old(geometry).room_loops(),
{
    let p = v.position(geometry);
    geometry.set_vertex_position(v, Vec2i::new(p.x + d.x, p.y + d.y));
}

/// `u` is the vertex of one of the first `i` handles of `vs`.
pub open spec fn listed_before(vs: Seq<VertexId>, i: int, u: u64) -> bool {
    exists|j: int| 0 <= j < i && #[trigger] vs[j].key() == u
}

/// Vertex `u` of `g0` moved by `d` when it is one of `vs`, else as it was.
pub open spec fn moved_if_listed(g0: WorldGeometry, vs: Seq<VertexId>, d: Vec2i, u: u64) -> VertexDef {
    if listed_before(vs, vs.len() as int, u) {
        VertexDef {
            position: Vec2i {
                x: (g0.vertex(u).position.x + d.x) as i32,
                y: (g0.vertex(u).position.y + d.y) as i32,
            },
            ..g0.vertex(u)
        }
    } else {
        g0.vertex(u)
    }
}

/// Moves each vertex of `vertices` by `d`, once however often it is listed.
fn translate_vertices(geometry: &mut WorldGeometry, vertices: &Vec<VertexId>, d: Vec2i)
    requires
        old(geometry).wf(),
        forall|i: int| 0 <= i < vertices@.len() ==> old(geometry).has_vertex(#[trigger] vertices@[i].key()),
        forall|i: int| 0 <= i < vertices@.len() ==> move_fits(old(geometry).vertex(#[trigger] vertices@[i].key()).position, d, 1),
    ensures
        final(geometry).wf(),
        final(geometry).vertex_map().dom() == old(geometry).vertex_map().dom(),
        forall|u: u64| #[trigger] old(geometry).has_vertex(u) ==> final(geometry).vertex(u) == moved_if_listed(*old(geometry), vertices@, d, u),
        final(geometry).wall_map() == old(geometry).wall_map(),
        final(geometry).room_map() == old(geometry).room_map(),
        final(geometry).room_loops() == old(geometry).room_loops(),
{
    let ghost g0 = *old(geometry);
    let ghost vs = vertices@;
    let mut i: usize = 0;
    while i < vertices.len()
        invariant
            g0.wf(),
            geometry.wf(),
            vs == vertices@,
            0 <= i <= vs.len(),
            forall|k: int| 0 <= k < vs.len() ==> g0.has_vertex(#[trigger] vs[k].key()),
            forall|k: int| 0 <= k < vs.len() ==> move_fits(g0.vertex(#[trigger] vs[k].key()).position, d, 1),
            geometry.vertex_map().dom() == g0.vertex_map().dom(),
            forall|u: u64| #[trigger] g0.has_vertex(u) ==> geometry.vertex(u) == (if listed_before(vs, i as int, u) {
                VertexDef {
                    position: Vec2i { x: (g0.vertex(u).position.x + d.x) as i32, y: (g0.vertex(u).position.y + d.y) as i32 },
                    ..g0.vertex(u)
                }
            } else {
                g0.vertex(u)
            }),
            geometry.wall_map() == g0.wall_map(),
            geometry.room_map() == g0.room_map(),
            geometry.room_loops() == g0.room_loops(),
        decreases vs.len() - i,
    {
        let v = vertices[i];
        let mut seen = false;
        let mut j: usize = 0;
        while j < i
            invariant
                vs == vertices@,
                0 <= j <= i < vs.len(),
                v == vs[i as int],
                seen <==> listed_before(vs, j as int, v.key()),
            decreases i - j,
        {
            proof {
                if listed_before(vs, j as int, v.key()) {
                    let k = choose|k: int| 0 <= k < j && #[trigger] vs[k].key() == v.key();
                    assert(listed_before(vs, j as int + 1, v.key()));
                }
                if vs[j as int].key() == v.key() {
                    assert(listed_before(vs, j as int + 1, v.key()));
                }
                if listed_before(vs, j as int + 1, v.key()) {
                    let k = choose|k: int| 0 <= k < j + 1 && #[trigger] vs[k].key() == v.key();
                    if k < j {
                        assert(listed_before(vs, j as int, v.key()));
                    }
                }
            }
            proof {
                lemma_vertex_id_eq(vertices@[j as int], v);
            }
            if vertices[j] == v {
                seen = true;
            }
            j = j + 1;
        }
        let ghost before = *geometry;
        if !seen {
            proof {
                assert(g0.has_vertex(v.key()));
                assert(!listed_before(vs, i as int, v.key()));
                assert(geometry.vertex(v.key()) == g0.vertex(v.key()));
            }
            translate_vertex(geometry, v, d);
        }
        proof {
            assert forall|u: u64| #[trigger] g0.has_vertex(u) implies geometry.vertex(u) == (if listed_before(vs, i as int + 1, u) {
                VertexDef {
                    position: Vec2i { x: (g0.vertex(u).position.x + d.x) as i32, y: (g0.vertex(u).position.y + d.y) as i32 },
                    ..g0.vertex(u)
                }
            } else {
                g0.vertex(u)
            }) by {
                if listed_before(vs, i as int, u) {
                    let k = choose|k: int| 0 <= k < i && #[trigger] vs[k].key() == u;
                    assert(listed_before(vs, i as int + 1, u));
                }
                if u == v.key() {
                    assert(vs[i as int].key() == u);
                    assert(listed_before(vs, i as int + 1, u));
                }
                if listed_before(vs, i as int + 1, u) && u != v.key() {
                    let k = choose|k: int| 0 <= k < i + 1 && #[trigger] vs[k].key() == u;
                    assert(k < i);
                    assert(listed_before(vs, i as int, u));
                }
            }
            assert(geometry.vertex_map().dom() =~= g0.vertex_map().dom());
        }
        i = i + 1;
    }
}

/// Carries out one geometry command of the world editor. Room and wall
/// settings are refused for handles that name nothing; splitting a room is
/// refused for the same wall twice or a handle that names nothing (and
/// otherwise as [`WorldGeometry::split_room`] refuses); connecting is refused
/// for a wall and itself or a handle that names nothing; removing a room is
/// refused when it is the last one or names nothing. A command that only
/// changes how rooms and walls look or where vertices lie leaves the records
/// that redoing the changes the editor records for it leaves (see
/// [`crate::geometry_undo::record_edit`]).
#[verifier::rlimit(40)]
pub fn handle_geometry_edit_cmd(geometry: &mut WorldGeometry, cmd: GeometryEditCmd) -> (res: Result<(), GeometryError>)
    requires
        old(geometry).wf(),
        edit_allowed(*old(geometry), cmd),
    ensures
        final(geometry).wf(),
        res is Err ==> *final(geometry) == *old(geometry),
        res is Ok && recordable(cmd) ==> final(geometry).maps() == redo_all(
            old(geometry).maps(),
            edit_entries(*old(geometry), cmd),
        ),
        ({
            let g0 = *old(geometry);
            let g1 = *final(geometry);
            match cmd {
                GeometryEditCmd::TranslateItem(item, d) => match item {
                    Item::Vertex(v) => {
                        &&& res is Err <==> !g0.has_vertex(v.key())
                        &&& res is Err ==> res == Err::<(), GeometryError>(GeometryError::InvalidId)
                        &&& res is Ok ==> {
                            let p = g0.vertex(v.key()).position;
                            &&& g1.vertex(v.key()).position.x == p.x + d.x
                            &&& g1.vertex(v.key()).position.y == p.y + d.y
                            &&& g1.vertex_map().dom() == g0.vertex_map().dom()
                            &&& forall|u: u64| #[trigger] g0.has_vertex(u) && u != v.key() ==> g1.vertex(u) == g0.vertex(u)
                            &&& g1.wall_map() == g0.wall_map()
                            &&& g1.room_map() == g0.room_map()
                        }
                    },
                    Item::Wall(w) => {
                        let a = g0.wall(w.key()).source_vertex.key();
                        let b = g0.wall(g0.next_of(w.key())).source_vertex.key();
                        &&& res is Ok
                        &&& g1.vertex(a).position.x == g0.vertex(a).position.x + d.x
                        &&& g1.vertex(a).position.y == g0.vertex(a).position.y + d.y
                        &&& g1.vertex(b).position.x == g0.vertex(b).position.x + d.x
                        &&& g1.vertex(b).position.y == g0.vertex(b).position.y + d.y
                        &&& g1.vertex_map().dom() == g0.vertex_map().dom()
                        &&& forall|u: u64| #[trigger] g0.has_vertex(u) && u != a && u != b ==> g1.vertex(u) == g0.vertex(u)
                        &&& g1.wall_map() == g0.wall_map()
                        &&& g1.room_map() == g0.room_map()
                    },
                    Item::Room(r) => {
                        &&& res is Ok
                        &&& g1.vertex_map().dom() == g0.vertex_map().dom()
                        &&& forall|u: u64| #[trigger] g0.has_vertex(u) ==> g1.vertex(u) == if starts_wall_of(g0, g0.room_loop(r.key()), u) {
                            VertexDef {
                                position: Vec2i { x: (g0.vertex(u).position.x + d.x) as i32, y: (g0.vertex(u).position.y + d.y) as i32 },
                                ..g0.vertex(u)
                            }
                        } else {
                            g0.vertex(u)
                        }
                        &&& g1.wall_map() == g0.wall_map()
                        &&& g1.room_map() == g0.room_map()
                    },
                    Item::Object(_) => res == Err::<(), GeometryError>(GeometryError::NotInGeometry),
                    Item::PlayerSpawn => true,
                },
                GeometryEditCmd::SetCeilingColor(r, c) => {
                    &&& res is Err <==> !g0.has_room(r.key())
                    &&& res is Err ==> res == Err::<(), GeometryError>(GeometryError::InvalidId)
                    &&& res is Ok ==> g1.room_map() == g0.room_map().insert(r.key(), RoomDef { ceiling_color: c, ..g0.room(r.key()) })
                        && g1.wall_map() == g0.wall_map() && g1.vertex_map() == g0.vertex_map()
                },
                GeometryEditCmd::SetCeilingHeight(r, h) => {
                    &&& res is Err <==> !g0.has_room(r.key())
                    &&& res is Err ==> res == Err::<(), GeometryError>(GeometryError::InvalidId)
                    &&& res is Ok ==> g1.room_map() == g0.room_map().insert(r.key(), RoomDef { height: h, ..g0.room(r.key()) })
                        && g1.wall_map() == g0.wall_map() && g1.vertex_map() == g0.vertex_map()
                },
                GeometryEditCmd::SetFloorColor(r, c) => {
                    &&& res is Err <==> !g0.has_room(r.key())
                    &&& res is Err ==> res == Err::<(), GeometryError>(GeometryError::InvalidId)
                    &&& res is Ok ==> g1.room_map() == g0.room_map().insert(r.key(), RoomDef { floor_color: c, ..g0.room(r.key()) })
                        && g1.wall_map() == g0.wall_map() && g1.vertex_map() == g0.vertex_map()
                },
                GeometryEditCmd::SetWallColor(w, c) => {
                    &&& res is Err <==> !g0.has_wall(w.key())
                    &&& res is Err ==> res == Err::<(), GeometryError>(GeometryError::InvalidId)
                    &&& res is Ok ==> g1.wall_map() == g0.wall_map().insert(w.key(), WallDef { color: c, ..g0.wall(w.key()) })
                        && g1.same_but_walls(&g0)
                },
                GeometryEditCmd::SetHorizontalWallOffset(w, o) => {
                    &&& res is Err <==> !g0.has_wall(w.key())
                    &&& res is Err ==> res == Err::<(), GeometryError>(GeometryError::InvalidId)
                    &&& res is Ok ==> g1.wall_map() == g0.wall_map().insert(w.key(), WallDef { horizontal_offset: o, ..g0.wall(w.key()) })
                        && g1.same_but_walls(&g0)
                },
                GeometryEditCmd::SetVerticalWallOffset(w, o) => {
                    &&& res is Err <==> !g0.has_wall(w.key())
                    &&& res is Err ==> res == Err::<(), GeometryError>(GeometryError::InvalidId)
                    &&& res is Ok ==> g1.wall_map() == g0.wall_map().insert(w.key(), WallDef { vertical_offset: o, ..g0.wall(w.key()) })
                        && g1.same_but_walls(&g0)
                },
                GeometryEditCmd::RemoveRoom(r) => {
                    &&& g0.num_rooms_spec() == 1 ==> res == Err::<(), GeometryError>(GeometryError::LastRoom)
                    &&& g0.num_rooms_spec() != 1 && !g0.has_room(r.key()) ==> res == Err::<(), GeometryError>(GeometryError::InvalidId)
                    &&& g0.num_rooms_spec() != 1 && g0.has_room(r.key()) ==> res is Ok && g1.removed_room_from(&g0, r.key())
                },
                GeometryEditCmd::DisconnectRoom(r) => res is Ok && g1.disconnected_from(&g0, g0.room_loop(r.key())),
                GeometryEditCmd::SplitRoom(a, b) => {
                    let valid = g0.has_wall(a.key()) && g0.has_wall(b.key());
                    &&& a == b ==> res == Err::<(), GeometryError>(GeometryError::FlatRoom)
                    &&& a != b && !valid ==> res == Err::<(), GeometryError>(GeometryError::InvalidId)
                    &&& a != b && valid ==> {
                        &&& res is Ok <==> (g0.room_of(a.key()) == g0.room_of(b.key()) && g0.next_of(b.key()) != a.key())
                        &&& g0.room_of(a.key()) != g0.room_of(b.key()) ==> res == Err::<(), GeometryError>(GeometryError::DifferentRooms)
                        &&& g0.room_of(a.key()) == g0.room_of(b.key()) && g0.next_of(b.key()) == a.key() ==> res
                            == Err::<(), GeometryError>(GeometryError::WholeLoop)
                        &&& res is Ok ==> exists|nw: u64| g1.split_room_done(&g0, a.key(), b.key(), nw)
                    }
                },
                GeometryEditCmd::ConnectWall(a, b) => {
                    &&& a == b ==> res == Err::<(), GeometryError>(GeometryError::SelfConnection)
                    &&& a != b && !(g0.has_wall(a.key()) && g0.has_wall(b.key())) ==> res
                        == Err::<(), GeometryError>(GeometryError::InvalidId)
                    &&& a != b && g0.has_wall(a.key()) && g0.has_wall(b.key()) ==> res is Ok && g1.connected_from(&g0, a, Some(b))
                },
                GeometryEditCmd::DisconnectWall(w) => {
                    &&& !g0.has_wall(w.key()) ==> res == Err::<(), GeometryError>(GeometryError::InvalidId)
                    &&& g0.has_wall(w.key()) ==> res is Ok && g1.connected_from(&g0, w, None)
                },
                GeometryEditCmd::SplitWall(w, p) => {
                    let nw = g1.wall(w.key()).next_wall;
                    let nv = g1.wall(nw.key()).source_vertex;
                    &&& res is Ok
                    &&& !g0.has_wall(nw.key())
                    &&& !g0.has_vertex(nv.key())
                    &&& g1.vertex_map() == g0.vertex_map().insert(nv.key(), VertexDef { outgoing_wall: nw, position: p })
                    &&& g1.wall_map() == split_wall_walls(g0.wall_map(), w, nw, nv)
                    &&& g1.room_map() == g0.room_map()
                    &&& g1.num_walls_spec() == g0.num_walls_spec() + 1
                    &&& g1.num_vertices_spec() == g0.num_vertices_spec() + 1
                },
                GeometryEditCmd::SplitVertex(v) => {
                    &&& res is Err <==> g0.has_second_outgoing(v.key())
                    &&& res is Err ==> res == Err::<(), GeometryError>(GeometryError::SharedVertex)
                    &&& res is Ok ==> {
                        let iw = g0.incoming_wall(v.key());
                        let nw = g1.wall(iw.key()).next_wall;
                        let nv = g1.wall(nw.key()).source_vertex;
                        &&& !g0.has_wall(nw.key())
                        &&& !g0.has_vertex(nv.key())
                        &&& g1.vertex_map() == g0.vertex_map().insert(
                            nv.key(),
                            VertexDef { outgoing_wall: nw, position: g0.vertex(v.key()).position },
                        )
                        &&& g1.wall_map() == split_wall_walls(g0.wall_map(), iw, nw, nv)
                        &&& g1.room_map() == g0.room_map()
                        &&& g1.num_walls_spec() == g0.num_walls_spec() + 1
                        &&& g1.num_vertices_spec() == g0.num_vertices_spec() + 1
                    }
                },
            }
        }),
{
    let ghost g0 = *old(geometry);
    proof {
        g0.lemma_wf_basics();
    }
    match cmd {
        GeometryEditCmd::TranslateItem(item, d) => {
            match item {
                Item::Vertex(vertex_id) => {
                    if !vertex_id.is_valid(geometry) {
                        return Err(GeometryError::InvalidId);
                    }
                    translate_vertex(geometry, vertex_id, d);
                    proof {
                        assert(geometry.vertex_map().dom() =~= g0.vertex_map().dom());
                        lemma_redo_one(g0.maps(), edit_entries(g0, cmd)[0]);
                        assert(edit_entries(g0, cmd) == seq![edit_entries(g0, cmd)[0]]);
                    }
                    Ok(())
                },
                Item::Wall(wall_id) => {
                    proof {
                        g0.lemma_wall_ok(wall_id.key());
                        g0.lemma_wall_ok(g0.next_of(wall_id.key()));
                    }
                    let vertex_a = wall_id.vertex(geometry);
                    let vertex_b = wall_id.next_vertex(geometry);
                    let vertices = vec![vertex_a, vertex_b];
                    translate_vertices(geometry, &vertices, d);
                    proof {
                        let vs = vertices@;
                        assert(vs[0] == vertex_a && vs[1] == vertex_b);
                        assert(listed_before(vs, 2, vertex_a.key()));
                        assert(listed_before(vs, 2, vertex_b.key()));
                        assert forall|u: u64| #[trigger] g0.has_vertex(u) && u != vertex_a.key() && u != vertex_b.key() implies geometry.vertex(u) == g0.vertex(u) by {
                            if listed_before(vs, 2, u) {
                                let k = choose|k: int| 0 <= k < 2 && #[trigger] vs[k].key() == u;
                            }
                        }
                        let es = edit_entries(g0, cmd);
                        assert(es.drop_last() =~= seq![es[0]]);
                        assert(es.last() == es[1]);
                        lemma_redo_one(g0.maps(), es[0]);
                        let m = redo_all(g0.maps(), es);
                        assert(m.vertices =~= geometry.vertex_map()) by {
                            assert forall|u: u64| #[trigger] m.vertices.dom().contains(u) implies m.vertices[u] == geometry.vertex(u) by {
                                assert(g0.has_vertex(u));
                                assert(geometry.vertex(u) == moved_if_listed(g0, vs, d, u));
                                if u != vertex_a.key() && u != vertex_b.key() && listed_before(vs, 2, u) {
                                    let k = choose|k: int| 0 <= k < 2 && #[trigger] vs[k].key() == u;
                                }
                            }
                        }
                    }
                    Ok(())
                },
                Item::Room(room_id) => {
                    let vertices = geometry.room_vertices(room_id);
                    proof {
                        g0.lemma_room_ok(room_id.key());
                        let s = g0.room_loop(room_id.key());
                        assert forall|i: int| 0 <= i < vertices@.len() implies g0.has_vertex(#[trigger] vertices@[i].key())
                            && move_fits(g0.vertex(vertices@[i].key()).position, d, 1) by {
                            assert(g0.has_wall(s[i]));
                            g0.lemma_wall_ok(s[i]);
                            assert(starts_wall_of(g0, s, vertices@[i].key()));
                        }
                    }
                    translate_vertices(geometry, &vertices, d);
                    proof {
                        let s = g0.room_loop(room_id.key());
                        let vs = vertices@;
                        assert forall|u: u64| #[trigger] g0.has_vertex(u) implies listed_before(vs, vs.len() as int, u) == starts_wall_of(g0, s, u) by {
                            if listed_before(vs, vs.len() as int, u) {
                                let k = choose|k: int| 0 <= k < vs.len() && #[trigger] vs[k].key() == u;
                                assert(g0.wall(s[k]).source_vertex.key() == u);
                            }
                            if starts_wall_of(g0, s, u) {
                                let k = choose|k: int| 0 <= k < s.len() && #[trigger] g0.wall(s[k]).source_vertex.key() == u;
                                assert(vs[k].key() == u);
                            }
                        }
                        lemma_redo_room_move(g0, room_id, d, s.len() as int);
                        let es = edit_entries(g0, cmd);
                        assert(es.take(s.len() as int) =~= es);
                        assert(s.take(s.len() as int) =~= s);
                        let m = redo_all(g0.maps(), es);
                        assert forall|u: u64| #[trigger] m.vertices.dom().contains(u) implies m.vertices[u] == geometry.vertex(u) by {
                            assert(g0.has_vertex(u));
                            assert(geometry.vertex(u) == moved_if_listed(g0, vs, d, u));
                            assert(listed_before(vs, vs.len() as int, u) == starts_wall_of(g0, s, u));
                        }
                        assert(m.vertices =~= geometry.vertex_map());
                    }
                    Ok(())
                },
                Item::Object(_) => Err(GeometryError::NotInGeometry),
                Item::PlayerSpawn => Ok(()),
            }
        },
        GeometryEditCmd::SetCeilingColor(room_id, color) => {
            if !room_id.is_valid(geometry) {
                return Err(GeometryError::InvalidId);
            }
            let room = room_id.get(geometry);
            geometry.set_room_appearance(room_id, room.floor_color, color, room.height);
            proof {
                lemma_redo_one(g0.maps(), edit_entries(g0, cmd)[0]);
                assert(edit_entries(g0, cmd) == seq![edit_entries(g0, cmd)[0]]);
            }
            Ok(())
        },
        GeometryEditCmd::SetCeilingHeight(room_id, height) => {
            if !room_id.is_valid(geometry) {
                return Err(GeometryError::InvalidId);
            }
            let room = room_id.get(geometry);
            geometry.set_room_appearance(room_id, room.floor_color, room.ceiling_color, height);
            proof {
                lemma_redo_one(g0.maps(), edit_entries(g0, cmd)[0]);
                assert(edit_entries(g0, cmd) == seq![edit_entries(g0, cmd)[0]]);
            }
            Ok(())
        },
        GeometryEditCmd::SetFloorColor(room_id, color) => {
            if !room_id.is_valid(geometry) {
                return Err(GeometryError::InvalidId);
            }
            let room = room_id.get(geometry);
            geometry.set_room_appearance(room_id, color, room.ceiling_color, room.height);
            proof {
                lemma_redo_one(g0.maps(), edit_entries(g0, cmd)[0]);
                assert(edit_entries(g0, cmd) == seq![edit_entries(g0, cmd)[0]]);
            }
            Ok(())
        },
        GeometryEditCmd::SetWallColor(wall_id, color) => {
            if !wall_id.is_valid(geometry) {
                return Err(GeometryError::InvalidId);
            }
            let wall = wall_id.get(geometry);
            geometry.set_wall_appearance(wall_id, color, wall.vertical_offset, wall.horizontal_offset);
            proof {
                lemma_redo_one(g0.maps(), edit_entries(g0, cmd)[0]);
                assert(edit_entries(g0, cmd) == seq![edit_entries(g0, cmd)[0]]);
            }
            Ok(())
        },
        GeometryEditCmd::SetHorizontalWallOffset(wall_id, offset) => {
            if !wall_id.is_valid(geometry) {
                return Err(GeometryError::InvalidId);
            }
            let wall = wall_id.get(geometry);
            geometry.set_wall_appearance(wall_id, wall.color, wall.vertical_offset, offset);
            proof {
                lemma_redo_one(g0.maps(), edit_entries(g0, cmd)[0]);
                assert(edit_entries(g0, cmd) == seq![edit_entries(g0, cmd)[0]]);
            }
            Ok(())
        },
        GeometryEditCmd::SetVerticalWallOffset(wall_id, offset) => {
            if !wall_id.is_valid(geometry) {
                return Err(GeometryError::InvalidId);
            }
            let wall = wall_id.get(geometry);
            geometry.set_wall_appearance(wall_id, wall.color, offset, wall.horizontal_offset);
            proof {
                lemma_redo_one(g0.maps(), edit_entries(g0, cmd)[0]);
                assert(edit_entries(g0, cmd) == seq![edit_entries(g0, cmd)[0]]);
            }
            Ok(())
        },
        GeometryEditCmd::RemoveRoom(room_id) => {
            if geometry.num_rooms() == 1 {
                return Err(GeometryError::LastRoom);
            }
            if !room_id.is_valid(geometry) {
                return Err(GeometryError::InvalidId);
            }
            geometry.remove_room(room_id);
            Ok(())
        },
        GeometryEditCmd::DisconnectRoom(room_id) => {
            geometry.disconnect_room(room_id);
            Ok(())
        },
        GeometryEditCmd::SplitRoom(source_wall_id, target_wall_id) => {
            if source_wall_id == target_wall_id {
                return Err(GeometryError::FlatRoom);
            }
            if !source_wall_id.is_valid(geometry) || !target_wall_id.is_valid(geometry) {
                return Err(GeometryError::InvalidId);
            }
            proof {
                lemma_wall_id_eq(source_wall_id, target_wall_id);
            }
            match geometry.split_room(source_wall_id, target_wall_id) {
                Ok(_) => Ok(()),
                Err(e) => Err(e),
            }
        },
        GeometryEditCmd::ConnectWall(source_wall_id, target_wall_id) => {
            if source_wall_id == target_wall_id {
                return Err(GeometryError::SelfConnection);
            }
            if !source_wall_id.is_valid(geometry) || !target_wall_id.is_valid(geometry) {
                return Err(GeometryError::InvalidId);
            }
            proof {
                lemma_wall_id_eq(source_wall_id, target_wall_id);
            }
            geometry.connect_wall(source_wall_id, Some(target_wall_id))
        },
        GeometryEditCmd::DisconnectWall(wall_id) => {
            if !wall_id.is_valid(geometry) {
                return Err(GeometryError::InvalidId);
            }
            geometry.connect_wall(wall_id, None)
        },
        GeometryEditCmd::SplitWall(wall_id, new_position) => {
            let new_wall = geometry.split_wall(wall_id, new_position);
            proof {
                g0.lemma_wall_ok(wall_id.key());
                assert(geometry.wall(wall_id.key()).next_wall == new_wall);
            }
            Ok(())
        },
        GeometryEditCmd::SplitVertex(vertex_id) => {
            match geometry.split_vertex(vertex_id) {
                Ok(new_wall) => {
                    proof {
                        let o = g0.vertex(vertex_id.key()).outgoing_wall.key();
                        g0.lemma_vertex_ok(vertex_id.key());
                        g0.lemma_wall_ok(o);
                        let iw = g0.incoming_wall(vertex_id.key()).key();
                        assert(g0.has_wall(iw));
                        assert(iw != new_wall.key());
                        assert(geometry.wall(iw).next_wall == new_wall);
                    }
                    Ok(())
                },
                Err(e) => Err(e),
            }
        },
    }
}

} // verus!
