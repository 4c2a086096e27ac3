//! Integer bounding boxes, and the bounds of a room.
use vstd::prelude::*;
use crate::defs::Vec2i;
use crate::geometry::WorldGeometry;
use crate::ids::RoomId;

verus! {

/// An axis-aligned box of integer positions; empty while `min` is past `max`.
#[derive(Clone, Copy, PartialEq, Eq, Structural, Debug)]
pub struct Aabb2i {
    pub min: Vec2i,
    pub max: Vec2i,
}

impl Aabb2i {
    /// The box that holds no point: any point included becomes both corners.
    pub fn empty() -> (b: Aabb2i)
        ensures
            b.min == (Vec2i { x: i32::MAX, y: i32::MAX }),
            b.max == (Vec2i { x: i32::MIN, y: i32::MIN }),
    {
        Aabb2i { min: Vec2i::new(i32::MAX, i32::MAX), max: Vec2i::new(i32::MIN, i32::MIN) }
    }

    /// The smallest box holding this one and `p`.
    pub fn include_point(self, p: Vec2i) -> (b: Aabb2i)
        ensures
            b.min.x == if p.x < self.min.x { p.x } else { self.min.x },
            b.min.y == if p.y < self.min.y { p.y } else { self.min.y },
            b.max.x == if p.x > self.max.x { p.x } else { self.max.x },
            b.max.y == if p.y > self.max.y { p.y } else { self.max.y },
    {
        Aabb2i {
            min: Vec2i::new(if p.x < self.min.x { p.x } else { self.min.x }, if p.y < self.min.y { p.y } else { self.min.y }),
            max: Vec2i::new(if p.x > self.max.x { p.x } else { self.max.x }, if p.y > self.max.y { p.y } else { self.max.y }),
        }
    }
}

impl WorldGeometry {
    /// Position of the start of the `i`-th wall of room `r`'s loop.
    pub open spec fn loop_point(&self, r: u64, i: int) -> Vec2i {
        self.vertex(self.wall(self.room_loop(r)[i]).source_vertex.key()).position
    }

    /// The smallest box holding every vertex of `room`.
    pub fn room_bounds(&self, room: RoomId) -> (b: Aabb2i)
        requires
            self.wf(),
            self.has_room(room.key()),
        ensures
            forall|i: int|
                0 <= i < self.room_loop(room.key()).len() ==> {
                    let p = #[trigger] self.loop_point(room.key(), i);
                    b.min.x <= p.x <= b.max.x && b.min.y <= p.y <= b.max.y
                },
            exists|i: int| 0 <= i < self.room_loop(room.key()).len() && #[trigger] self.loop_point(room.key(), i).x == b.min.x,
            exists|i: int| 0 <= i < self.room_loop(room.key()).len() && #[trigger] self.loop_point(room.key(), i).y == b.min.y,
            exists|i: int| 0 <= i < self.room_loop(room.key()).len() && #[trigger] self.loop_point(room.key(), i).x == b.max.x,
            exists|i: int| 0 <= i < self.room_loop(room.key()).len() && #[trigger] self.loop_point(room.key(), i).y == b.max.y,
    {
        let ghost r = room.key();
        let vertices = self.room_vertices(room);
        proof {
            self.lemma_room_ok(r);
            assert forall|j: int| 0 <= j < vertices@.len() implies self.has_vertex(#[trigger] vertices@[j].key()) by {
                assert(self.has_wall(self.room_loop(r)[j]));
                self.lemma_wall_ok(self.room_loop(r)[j]);
            }
        }
        let mut bounds = Aabb2i::empty();
        let mut i: usize = 0;
        while i < vertices.len()
            invariant
                self.wf(),
                vertices@.len() == self.room_loop(r).len(),
                self.room_loop(r).len() > 0,
                forall|j: int| 0 <= j < vertices@.len() ==> #[trigger] vertices@[j] == self.wall(self.room_loop(r)[j]).source_vertex,
                forall|j: int| 0 <= j < vertices@.len() ==> self.has_vertex(#[trigger] vertices@[j].key()),
                0 <= i <= vertices@.len(),
                forall|j: int|
                    0 <= j < i ==> {
                        let p = #[trigger] self.loop_point(r, j);
                        bounds.min.x <= p.x <= bounds.max.x && bounds.min.y <= p.y <= bounds.max.y
                    },
                i == 0 ==> bounds == (Aabb2i { min: Vec2i { x: i32::MAX, y: i32::MAX }, max: Vec2i { x: i32::MIN, y: i32::MIN } }),
                i > 0 ==> exists|j: int| 0 <= j < i && #[trigger] self.loop_point(r, j).x == bounds.min.x,
                i > 0 ==> exists|j: int| 0 <= j < i && #[trigger] self.loop_point(r, j).y == bounds.min.y,
                i > 0 ==> exists|j: int| 0 <= j < i && #[trigger] self.loop_point(r, j).x == bounds.max.x,
                i > 0 ==> exists|j: int| 0 <= j < i && #[trigger] self.loop_point(r, j).y == bounds.max.y,
            decreases vertices@.len() - i,
        {
            let position = vertices[i].position(self);
            let ghost old_bounds = bounds;
            bounds = bounds.include_point(position);
            proof {
                assert(position == self.loop_point(r, i as int));
                if i > 0 {
                    let a = choose|j: int| 0 <= j < i && #[trigger] self.loop_point(r, j).x == old_bounds.min.x;
                    let b = choose|j: int| 0 <= j < i && #[trigger] self.loop_point(r, j).y == old_bounds.min.y;
                    let c = choose|j: int| 0 <= j < i && #[trigger] self.loop_point(r, j).x == old_bounds.max.x;
                    let d = choose|j: int| 0 <= j < i && #[trigger] self.loop_point(r, j).y == old_bounds.max.y;
                    assert(self.loop_point(r, a).x == old_bounds.min.x);
                    assert(self.loop_point(r, b).y == old_bounds.min.y);
                    assert(self.loop_point(r, c).x == old_bounds.max.x);
                    assert(self.loop_point(r, d).y == old_bounds.max.y);
                }
            }
            i = i + 1;
        }
        bounds
    }
}

} // verus!
