//! The records stored for each vertex, wall and room of a world geometry.
use vstd::prelude::*;
use crate::ids::{VertexId, WallId, RoomId, NULL_KEY};

verus! {

/// An integer position, in sixteenths of a world unit.
#[derive(Clone, Copy, PartialEq, Eq, Structural, Debug, Hash)]
pub struct Vec2i {
    pub x: i32,
    pub y: i32,
}

impl Vec2i {
    pub fn new(x: i32, y: i32) -> (v: Vec2i)
        ensures
            v.x == x,
            v.y == y,
    {
        Vec2i { x, y }
    }
}

/// An 8-bit-per-channel color.
#[derive(Clone, Copy, PartialEq, Eq, Structural, Debug, Hash)]
pub struct Color {
    pub r: u8,
    pub g: u8,
    pub b: u8,
    pub a: u8,
}

impl Color {
    pub open spec fn white_spec() -> Color {
        Color { r: 255, g: 255, b: 255, a: 255 }
    }

    pub fn white() -> (c: Color)
        ensures
            c == (Color { r: 255, g: 255, b: 255, a: 255 }),
    {
        Color { r: 255, g: 255, b: 255, a: 255 }
    }

    /// An opaque grey of the given brightness.
    pub fn grey(level: u8) -> (c: Color)
        ensures
            c == (Color { r: level, g: level, b: level, a: 255 }),
    {
        Color { r: level, g: level, b: level, a: 255 }
    }
}

#[derive(Clone, Copy, Debug)]
pub struct VertexDef {
    pub outgoing_wall: WallId,
    pub position: Vec2i,
}

#[derive(Clone, Copy, Debug)]
pub struct WallDef {
    pub source_vertex: VertexId,
    pub next_wall: WallId,
    pub prev_wall: WallId,
    pub connected_wall: Option<WallId>,
    pub room: RoomId,
    pub color: Color,
    /// How much to offset the height of the target room.
    pub vertical_offset: i32,
    /// How much to offset the aperture horizontally from the center of the wall.
    pub horizontal_offset: i32,
}

#[derive(Clone, Copy, Debug)]
pub struct RoomDef {
    pub first_wall: WallId,
    pub floor_color: Color,
    pub ceiling_color: Color,
    pub height: u32,
}

impl VertexDef {
    /// A vertex at `position` whose outgoing wall is not set yet.
    pub fn at(position: Vec2i) -> (v: VertexDef)
        ensures
            v.position == position,
            v.outgoing_wall.key() == NULL_KEY,
    {
        VertexDef { outgoing_wall: WallId::null(), position }
    }
}

impl Default for VertexDef {
    fn default() -> (v: VertexDef)
        ensures
            v.position == (Vec2i { x: 0, y: 0 }),
            v.outgoing_wall.key() == NULL_KEY,
    {
        VertexDef::at(Vec2i { x: 0, y: 0 })
    }
}

impl Default for WallDef {
    fn default() -> (w: WallDef)
        ensures
            w.source_vertex.key() == NULL_KEY,
            w.next_wall.key() == NULL_KEY,
            w.prev_wall.key() == NULL_KEY,
            w.connected_wall is None,
            w.room.key() == NULL_KEY,
            w.color == (Color { r: 255, g: 255, b: 255, a: 255 }),
            w.vertical_offset == 0,
            w.horizontal_offset == 0,
    {
        WallDef {
            source_vertex: VertexId::null(),
            next_wall: WallId::null(),
            prev_wall: WallId::null(),
            connected_wall: None,
            room: RoomId::null(),
            color: Color::white(),
            vertical_offset: 0,
            horizontal_offset: 0,
        }
    }
}

impl Default for RoomDef {
    fn default() -> (r: RoomDef)
        ensures
            r.first_wall.key() == NULL_KEY,
            r.floor_color == (Color { r: 255, g: 255, b: 255, a: 255 }),
            r.ceiling_color == (Color { r: 255, g: 255, b: 255, a: 255 }),
            r.height == 16,
    {
        RoomDef {
            first_wall: WallId::null(),
            floor_color: Color::white(),
            ceiling_color: Color::white(),
            height: 16,
        }
    }
}

} // verus!
