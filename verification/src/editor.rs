//! What the world editor can select, and how its focus and selection follow
//! edits of the world.
use vstd::prelude::*;
use crate::geometry::WorldGeometry;
use crate::ids::{slot_index, RoomId, VertexId, WallId};
use crate::interactions::ObjectId;

verus! {

/// A selectable element of the world.
#[derive(Clone, Copy, PartialEq, Eq, Structural, Debug)]
pub enum Item {
    Vertex(VertexId),
    Wall(WallId),
    Room(RoomId),
    PlayerSpawn,
    Object(ObjectId),
}

impl Item {
    /// The room the item lies in: a vertex lies in the room of its outgoing
    /// wall, a wall in its own room. `player_spawn_room` is the room of the
    /// player's spawn point, and `object_room` the room of the item's object
    /// when the item is an object (the object must exist).
    pub fn room_id(&self, geometry: &WorldGeometry, player_spawn_room: RoomId, object_room: Option<RoomId>) -> (r: RoomId)
        requires
            geometry.wf(),
            self matches Item::Vertex(v) ==> geometry.has_vertex(v.key()),
            self matches Item::Wall(w) ==> geometry.has_wall(w.key()),
            self is Object ==> object_room is Some,
        ensures
            r == match *self {
                Item::Room(room) => room,
                Item::Vertex(v) => geometry.wall(geometry.vertex(v.key()).outgoing_wall.key()).room,
                Item::Wall(w) => geometry.wall(w.key()).room,
                Item::PlayerSpawn => player_spawn_room,
                Item::Object(_) => object_room->0,
            },
    {
        match *self {
            Item::Room(room) => room,
            Item::Vertex(vertex_id) => {
                proof {
                    geometry.lemma_vertex_ok(vertex_id.key());
                }
                let wall_id = vertex_id.wall(geometry);
                wall_id.room(geometry)
            },
            Item::Wall(wall_id) => wall_id.room(geometry),
            Item::PlayerSpawn => player_spawn_room,
            Item::Object(_) => match object_room {
                Some(room) => room,
                None => player_spawn_room,
            },
        }
    }
}

/// Whether `item` still names something of the world: its vertex or wall
/// exists, its object exists (`object_room` is the room of the item's object,
/// `None` when there is no such object), and the room it lies in exists.
pub open spec fn item_valid(geometry: WorldGeometry, item: Item, player_spawn_room: RoomId, object_room: Option<RoomId>) -> bool {
    match item {
        Item::Object(_) => object_room matches Some(r) && geometry.has_room(r.key()),
        Item::Wall(w) => geometry.has_wall(w.key()),
        Item::Vertex(v) => geometry.has_vertex(v.key()),
        Item::Room(r) => geometry.has_room(r.key()),
        Item::PlayerSpawn => geometry.has_room(player_spawn_room.key()),
    }
}

/// Clears a hovered or selected item that no longer names something of the
/// world (see [`item_valid`]).
pub fn validate_item(geometry: &WorldGeometry, player_spawn_room: RoomId, object_room: Option<RoomId>, maybe_item: &mut Option<Item>)
    requires
        geometry.wf(),
    ensures
        *final(maybe_item) == match *old(maybe_item) {
            Some(item) => if item_valid(*geometry, item, player_spawn_room, object_room) {
                Some(item)
            } else {
                None
            },
            None => None,
        },
{
    match *maybe_item {
        Some(Item::Object(_)) => {
            match object_room {
                Some(room) => {
                    if !room.is_valid(geometry) {
                        *maybe_item = None;
                    }
                },
                None => {
                    *maybe_item = None;
                },
            }
        },
        Some(Item::Wall(wall_id)) => {
            if !wall_id.is_valid(geometry) {
                *maybe_item = None;
            } else {
                proof {
                    geometry.lemma_wall_ok(wall_id.key());
                }
                let room = Item::Wall(wall_id).room_id(geometry, player_spawn_room, object_room);
                if !room.is_valid(geometry) {
                    *maybe_item = None;
                }
            }
        },
        Some(Item::Vertex(vertex_id)) => {
            if !vertex_id.is_valid(geometry) {
                *maybe_item = None;
            } else {
                proof {
                    geometry.lemma_vertex_ok(vertex_id.key());
                    geometry.lemma_wall_ok(geometry.vertex(vertex_id.key()).outgoing_wall.key());
                }
                let room = Item::Vertex(vertex_id).room_id(geometry, player_spawn_room, object_room);
                if !room.is_valid(geometry) {
                    *maybe_item = None;
                }
            }
        },
        Some(item) => {
            let room = item.room_id(geometry, player_spawn_room, object_room);
            if !room.is_valid(geometry) {
                *maybe_item = None;
            }
        },
        None => {},
    }
}

/// `r` is the room in the lowest slot of `geometry`.
pub open spec fn is_first_room(geometry: WorldGeometry, r: RoomId) -> bool {
    &&& geometry.has_room(r.key())
    &&& forall|k: u64| #[trigger] geometry.has_room(k) ==> slot_index(r.key()) <= slot_index(k)
}

/// Brings the editor's view of the model back in line after an edit: a focused
/// room or a player spawn room that is gone falls back to the first room, then
/// a hovered or selected item that no longer names something of the world is
/// cleared (see [`validate_item`]; `hovered_object_room` and
/// `selected_object_room` are the rooms of the items' objects, when they are
/// objects that exist).
pub fn validate_model(
    geometry: &WorldGeometry,
    focused_room: &mut Option<RoomId>,
    player_spawn_room: &mut RoomId,
    hovered: &mut Option<Item>,
    hovered_object_room: Option<RoomId>,
    selection: &mut Option<Item>,
    selected_object_room: Option<RoomId>,
)
    requires
        geometry.wf(),
        geometry.num_rooms_spec() > 0,
    ensures
        *final(focused_room) matches Some(r) && geometry.has_room(r.key()),
        (*old(focused_room) matches Some(r) && geometry.has_room(r.key())) ==> *final(focused_room) == *old(focused_room),
        !(*old(focused_room) matches Some(r) && geometry.has_room(r.key())) ==> is_first_room(*geometry, final(focused_room)->0),
        geometry.has_room(old(player_spawn_room).key()) ==> *final(player_spawn_room) == *old(player_spawn_room),
        !geometry.has_room(old(player_spawn_room).key()) ==> is_first_room(*geometry, *final(player_spawn_room)),
        *final(hovered) == match *old(hovered) {
            Some(item) => if item_valid(*geometry, item, *final(player_spawn_room), hovered_object_room) {
                Some(item)
            } else {
                None
            },
            None => None,
        },
        *final(selection) == match *old(selection) {
            Some(item) => if item_valid(*geometry, item, *final(player_spawn_room), selected_object_room) {
                Some(item)
            } else {
                None
            },
            None => None,
        },
{
    let first_room = geometry.first_room();
    let focused_valid = match *focused_room {
        Some(room_id) => room_id.is_valid(geometry),
        None => false,
    };
    if !focused_valid {
        *focused_room = Some(first_room);
    }
    if !player_spawn_room.is_valid(geometry) {
        *player_spawn_room = first_room;
    }
    validate_item(geometry, *player_spawn_room, hovered_object_room, hovered);
    validate_item(geometry, *player_spawn_room, selected_object_room, selection);
}

} // verus!
