//! What play needs to know of each room of the processed geometry.
use vstd::prelude::*;
use crate::geometry::WorldGeometry;
use crate::ids::{RoomId, WallId};

verus! {

/// The walls of `s` that are connected to another wall, in order.
pub open spec fn connected_walls_of(g: WorldGeometry, s: Seq<u64>) -> Seq<u64>
    decreases s.len(),
{
    if s.len() == 0 {
        Seq::<u64>::empty()
    } else {
        let rest = connected_walls_of(g, s.drop_last());
        if g.wall(s.last()).connected_wall is Some {
            rest.push(s.last())
        } else {
            rest
        }
    }
}

/// The indices `i < n` with `rooms[i] == r`, in increasing order.
pub open spec fn indices_in_room(rooms: Seq<RoomId>, r: RoomId, n: int) -> Seq<usize>
    decreases n,
{
    if n <= 0 {
        Seq::<usize>::empty()
    } else {
        let rest = indices_in_room(rooms, r, n - 1);
        if rooms[n - 1] == r {
            rest.push((n - 1) as usize)
        } else {
            rest
        }
    }
}

/// What play needs to know of a room: the objects in it (by their index in the
/// world's object list) and its walls that lead to another room.
pub struct RoomInfo {
    pub object_indices: Vec<usize>,
    pub connecting_walls: Vec<WallId>,
}

impl RoomInfo {
    /// The info of `room`: `object_rooms[i]` is the room of the world's `i`-th
    /// object; the connecting walls come in the room's loop order.
    pub fn collect(geometry: &WorldGeometry, room: RoomId, object_rooms: &Vec<RoomId>) -> (info: RoomInfo)
        requires
            geometry.wf(),
            geometry.has_room(room.key()),
        ensures
            info.object_indices@ == indices_in_room(object_rooms@, room, object_rooms@.len() as int),
            info.connecting_walls@.map_values(|w: WallId| w.key()) == connected_walls_of(
                *geometry,
                geometry.room_loop(room.key()),
            ),
    {
        let walls = geometry.room_walls(room);
        let ghost s = geometry.room_loop(room.key());
        proof {
            geometry.lemma_room_ok(room.key());
        }
        let mut connecting_walls: Vec<WallId> = Vec::new();
        let mut i: usize = 0;
        while i < walls.len()
            invariant
                geometry.room_ok(room.key()),
                s == geometry.room_loop(room.key()),
                walls@.len() == s.len(),
                forall|j: int| 0 <= j < walls@.len() ==> #[trigger] walls@[j].key() == s[j],
                0 <= i <= walls@.len(),
                connecting_walls@.map_values(|w: WallId| w.key()) == connected_walls_of(*geometry, s.take(i as int)),
            decreases walls@.len() - i,
        {
            proof {
                assert(s.take(i as int + 1).drop_last() =~= s.take(i as int));
                assert(geometry.has_wall(s[i as int]));
            }
            let wall_id = walls[i];
            if wall_id.connected_wall(geometry).is_some() {
                connecting_walls.push(wall_id);
            }
            proof {
                assert(connecting_walls@.map_values(|w: WallId| w.key()) =~= connected_walls_of(
                    *geometry,
                    s.take(i as int + 1),
                ));
            }
            i = i + 1;
        }
        proof {
            assert(s.take(s.len() as int) =~= s);
        }
        let mut object_indices: Vec<usize> = Vec::new();
        let mut i: usize = 0;
        while i < object_rooms.len()
            invariant
                0 <= i <= object_rooms@.len(),
                object_indices@ == indices_in_room(object_rooms@, room, i as int),
            decreases object_rooms@.len() - i,
        {
            if object_rooms[i] == room {
                object_indices.push(i);
            }
            i = i + 1;
        }
        RoomInfo { object_indices, connecting_walls }
    }
}

} // verus!
