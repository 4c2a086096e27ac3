//! Lookups and navigation through handles: each handle asks the geometry about
//! the element it names.
use vstd::prelude::*;
use crate::defs::{RoomDef, Vec2i, VertexDef, WallDef};
use crate::geometry::WorldGeometry;
use crate::ids::{RoomId, VertexId, WallId};

verus! {

/// Room queries.
impl RoomId {
    /// Whether the room exists in `geometry`.
    pub fn is_valid(&self, geometry: &WorldGeometry) -> (b: bool)
        ensures
            b == geometry.has_room(self.key()),
    {
        geometry.contains_room(*self)
    }

    /// The room's definition.
    pub fn get(&self, geometry: &WorldGeometry) -> (d: RoomDef)
        requires
            geometry.has_room(self.key()),
        ensures
            d == geometry.room(self.key()),
    {
        geometry.room_def(*self)
    }

    /// The room's definition, if the room exists.
    pub fn try_get(&self, geometry: &WorldGeometry) -> (d: Option<RoomDef>)
        ensures
            d == if geometry.has_room(self.key()) {
                Some(geometry.room(self.key()))
            } else {
                None
            },
    {
        geometry.try_room_def(*self)
    }

    /// The first wall of the room's loop.
    pub fn first_wall(&self, geometry: &WorldGeometry) -> (w: WallId)
        requires
            geometry.has_room(self.key()),
        ensures
            w == geometry.room(self.key()).first_wall,
    {
        self.get(geometry).first_wall
    }
}

/// Wall queries.
impl WallId {
    /// Whether the wall exists in `geometry`.
    pub fn is_valid(&self, geometry: &WorldGeometry) -> (b: bool)
        ensures
            b == geometry.has_wall(self.key()),
    {
        geometry.contains_wall(*self)
    }

    /// The wall's definition.
    pub fn get(&self, geometry: &WorldGeometry) -> (d: WallDef)
        requires
            geometry.has_wall(self.key()),
        ensures
            d == geometry.wall(self.key()),
    {
        geometry.wall_def(*self)
    }

    /// The wall's definition, if the wall exists.
    pub fn try_get(&self, geometry: &WorldGeometry) -> (d: Option<WallDef>)
        ensures
            d == if geometry.has_wall(self.key()) {
                Some(geometry.wall(self.key()))
            } else {
                None
            },
    {
        geometry.try_wall_def(*self)
    }

    /// The vertex the wall starts at.
    pub fn vertex(&self, geometry: &WorldGeometry) -> (v: VertexId)
        requires
            geometry.has_wall(self.key()),
        ensures
            v == geometry.wall(self.key()).source_vertex,
    {
        self.get(geometry).source_vertex
    }

    /// The vertex the wall ends at: the one the next wall starts at.
    pub fn next_vertex(&self, geometry: &WorldGeometry) -> (v: VertexId)
        requires
            geometry.wf(),
            geometry.has_wall(self.key()),
        ensures
            v == geometry.wall(geometry.next_of(self.key())).source_vertex,
    {
        proof {
            geometry.lemma_wall_ok(self.key());
        }
        self.next_wall(geometry).vertex(geometry)
    }

    /// The room the wall belongs to.
    pub fn room(&self, geometry: &WorldGeometry) -> (r: RoomId)
        requires
            geometry.has_wall(self.key()),
        ensures
            r == geometry.wall(self.key()).room,
    {
        self.get(geometry).room
    }

    /// The wall this wall is connected to, if any.
    pub fn connected_wall(&self, geometry: &WorldGeometry) -> (c: Option<WallId>)
        requires
            geometry.has_wall(self.key()),
        ensures
            c == geometry.wall(self.key()).connected_wall,
    {
        self.get(geometry).connected_wall
    }

    /// The room on the other side of the wall, if it is connected.
    pub fn connected_room(&self, geometry: &WorldGeometry) -> (r: Option<RoomId>)
        requires
            geometry.wf(),
            geometry.has_wall(self.key()),
        ensures
            r == match geometry.wall(self.key()).connected_wall {
                Some(t) => Some(geometry.wall(t.key()).room),
                None => None,
            },
    {
        proof {
            geometry.lemma_wall_ok(self.key());
        }
        match self.connected_wall(geometry) {
            Some(t) => Some(t.room(geometry)),
            None => None,
        }
    }

    /// The next wall around the room.
    pub fn next_wall(&self, geometry: &WorldGeometry) -> (w: WallId)
        requires
            geometry.has_wall(self.key()),
        ensures
            w == geometry.wall(self.key()).next_wall,
    {
        self.get(geometry).next_wall
    }

    /// The previous wall around the room.
    pub fn prev_wall(&self, geometry: &WorldGeometry) -> (w: WallId)
        requires
            geometry.has_wall(self.key()),
        ensures
            w == geometry.wall(self.key()).prev_wall,
    {
        self.get(geometry).prev_wall
    }
}

/// Vertex queries.
impl VertexId {
    /// Whether the vertex exists in `geometry`.
    pub fn is_valid(&self, geometry: &WorldGeometry) -> (b: bool)
        ensures
            b == geometry.has_vertex(self.key()),
    {
        geometry.contains_vertex(*self)
    }

    /// The vertex's definition.
    pub fn get(&self, geometry: &WorldGeometry) -> (d: VertexDef)
        requires
            geometry.has_vertex(self.key()),
        ensures
            d == geometry.vertex(self.key()),
    {
        geometry.vertex_def(*self)
    }

    /// The vertex's definition, if the vertex exists.
    pub fn try_get(&self, geometry: &WorldGeometry) -> (d: Option<VertexDef>)
        ensures
            d == if geometry.has_vertex(self.key()) {
                Some(geometry.vertex(self.key()))
            } else {
                None
            },
    {
        geometry.try_vertex_def(*self)
    }

    /// Where the vertex is.
    pub fn position(&self, geometry: &WorldGeometry) -> (p: Vec2i)
        requires
            geometry.has_vertex(self.key()),
        ensures
            p == geometry.vertex(self.key()).position,
    {
        self.get(geometry).position
    }

    /// The wall that starts at the vertex.
    pub fn wall(&self, geometry: &WorldGeometry) -> (w: WallId)
        requires
            geometry.has_vertex(self.key()),
        ensures
            w == geometry.vertex(self.key()).outgoing_wall,
    {
        self.get(geometry).outgoing_wall
    }
}

/// Wall navigation.
impl WallId {
    /// Steps to the next wall around the room.
    pub fn move_next(&mut self, geometry: &WorldGeometry)
        requires
            geometry.has_wall(old(self).key()),
        ensures
            *final(self) == geometry.wall(old(self).key()).next_wall,
    {
        *self = self.next_wall(geometry);
    }

    /// Steps to the previous wall around the room.
    pub fn move_prev(&mut self, geometry: &WorldGeometry)
        requires
            geometry.has_wall(old(self).key()),
        ensures
            *final(self) == geometry.wall(old(self).key()).prev_wall,
    {
        *self = self.prev_wall(geometry);
    }

    /// Steps through the wall into the connected room's wall; returns whether
    /// the wall was connected (if not, the handle is left as it was).
    pub fn move_connected(&mut self, geometry: &WorldGeometry) -> (moved: bool)
        requires
            geometry.has_wall(old(self).key()),
        ensures
            moved == geometry.wall(old(self).key()).connected_wall is Some,
            *final(self) == match geometry.wall(old(self).key()).connected_wall {
                Some(t) => t,
                None => *old(self),
            },
    {
        if let Some(connected) = self.connected_wall(geometry) {
            *self = connected;
            true
        } else {
            false
        }
    }
}

} // verus!
