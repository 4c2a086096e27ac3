//! The world as play sees it: the source geometry with its concave rooms cut
//! into convex pieces, what play needs to know of each room, and the way back
//! from a piece to the room it was cut from. It is rebuilt whenever a
//! [`WorldChangedEvent`] arrives.
use vstd::prelude::*;
use crate::geometry::{GeometryError, WorldGeometry};
use crate::ids::{slot_index, RoomId};
use crate::message_bus::{MessageBus, Subscription};
use crate::processing::{last_concave_wall, lists_entries, origin, rooms_from, split_concave_rooms, RoomSourceMap};
use crate::room_info::{connected_walls_of, indices_in_room, RoomInfo};
use crate::slots::MAX_SLOT_COUNT;

verus! {

/// Sent whenever the world's source geometry or its objects change.
#[derive(Clone, Copy, PartialEq, Eq, Structural, Debug)]
pub struct WorldChangedEvent;

/// A source geometry that processing can take: well formed, and small enough
/// that the cuts cannot run out of slots.
pub open spec fn processable(source: WorldGeometry) -> bool {
    &&& source.wf()
    &&& source.num_walls_spec() + 2000 < MAX_SLOT_COUNT
    &&& source.num_rooms_spec() + 1000 < MAX_SLOT_COUNT
}

/// `g` and `m` are what cutting the rooms of `source` gives: the same vertices,
/// every room and wall kept, two walls more for each new room, each new room
/// and only those with an entry naming a room of `source`; and nothing changed
/// where every room was convex already.
pub open spec fn processed_from(g: WorldGeometry, m: Map<u64, u64>, source: WorldGeometry) -> bool {
    &&& g.wf()
    &&& g.vertex_map() == source.vertex_map()
    &&& forall|r: u64| #[trigger] source.has_room(r) ==> g.has_room(r)
    &&& forall|w: u64| #[trigger] source.has_wall(w) ==> g.has_wall(w)
    &&& g.num_rooms_spec() >= source.num_rooms_spec()
    &&& g.num_walls_spec() == source.num_walls_spec() + 2 * (g.num_rooms_spec() - source.num_rooms_spec())
    &&& forall|k: u64| #[trigger] m.dom().contains(k) <==> (g.has_room(k) && !source.has_room(k))
    &&& forall|k: u64| #[trigger] m.dom().contains(k) ==> source.has_room(m[k])
    &&& source.all_rooms_convex() ==> {
        &&& g.wall_map() == source.wall_map()
        &&& g.room_map() == source.room_map()
        &&& m == Map::<u64, u64>::empty()
    }
    &&& forall|w: u64| #[trigger] source.has_wall(w) ==> origin(m, g.room_of(w)) == source.room_of(w)
    &&& forall|sw: u64, k: int|
        last_concave_wall(source, sw) && #[trigger] source.cut_blocked_at(sw, k) ==> g.num_rooms_spec() > source.num_rooms_spec()
}

/// How processing `source` into `g` may end: failing for the step limit only
/// once more than 1000 walls were in play, for a fully concave room only when
/// the search for a cut from its wall finds nothing, and otherwise only with a
/// concave corner left in `g` and every room of `g` one from which nothing
/// more is cut; ending well only with every room convex.
pub open spec fn processing_outcome(g: WorldGeometry, result: Result<(), GeometryError>) -> bool {
    match result {
        Ok(()) => g.all_rooms_convex(),
        Err(e) => match e {
            GeometryError::StepLimit => g.num_walls_spec() > 1000,
            GeometryError::FullyConcave(w) => g.has_wall(w.key()) && g.concave_after(w.key()) && g.cut_never_blocked(w.key()),
            GeometryError::Concave(a, b) => g.has_wall(a.key()) && g.concave_after(a.key()) && b == g.wall(a.key()).next_wall
                && g.all_rooms_settled(),
            _ => false,
        },
    }
}

/// Geometries with the same records and loops agree on every property of
/// their corners and cuts.
proof fn lemma_same_records(a: WorldGeometry, b: WorldGeometry)
    requires
        a.vertex_map() == b.vertex_map(),
        a.wall_map() == b.wall_map(),
        a.room_map() == b.room_map(),
        a.room_loops() == b.room_loops(),
    ensures
        forall|w: u64| #[trigger] a.concave_after(w) == b.concave_after(w),
        forall|w: u64| #[trigger] a.room_of(w) == b.room_of(w),
        forall|w: u64| #[trigger] a.loop_from(w) == b.loop_from(w),
        forall|p: u64, t: u64| #[trigger] a.blocks_cut(p, t) == b.blocks_cut(p, t),
        forall|p: u64, k: int| #[trigger] a.cut_blocked_at(p, k) == b.cut_blocked_at(p, k),
        forall|sw: u64| #[trigger] last_concave_wall(a, sw) == last_concave_wall(b, sw),
        a.all_rooms_settled() == b.all_rooms_settled(),
{
    assert forall|w: u64| #[trigger] a.concave_after(w) == b.concave_after(w) by {
        assert(a.wall(w) == b.wall(w));
        assert(a.wall(a.next_of(w)) == b.wall(b.next_of(w)));
        assert(a.wall(a.next_of(a.next_of(w))) == b.wall(b.next_of(b.next_of(w))));
    }
    assert forall|w: u64| #[trigger] a.loop_from(w) == b.loop_from(w) by {
        assert(a.room_of(w) == b.room_of(w));
        assert(a.room_loop(a.room_of(w)) == b.room_loop(b.room_of(w)));
    }
    assert forall|p: u64, t: u64| #[trigger] a.blocks_cut(p, t) == b.blocks_cut(p, t) by {
        assert(a.wall(p) == b.wall(p));
        assert(a.wall(t) == b.wall(t));
        assert(a.concave_after(t) == b.concave_after(t));
        assert(a.wall(a.next_of(p)) == b.wall(b.next_of(p)));
    }
    assert forall|p: u64, k: int| #[trigger] a.cut_blocked_at(p, k) == b.cut_blocked_at(p, k) by {
        assert(a.loop_from(p) == b.loop_from(p));
        let u = a.loop_from(p);
        if 0 <= k < u.len() {
            assert(a.blocks_cut(p, u[k]) == b.blocks_cut(p, u[k]));
        }
        assert forall|j: int| k < j < u.len() implies a.blocks_cut(p, #[trigger] u[j]) == b.blocks_cut(p, u[j]) by {}
    }
    assert forall|sw: u64| #[trigger] last_concave_wall(a, sw) == last_concave_wall(b, sw) by {
        assert(a.concave_after(sw) == b.concave_after(sw));
        if last_concave_wall(a, sw) {
            assert forall|w: u64| #[trigger] b.has_wall(w) && b.concave_after(w) implies slot_index(w) <= slot_index(sw) by {
                assert(a.has_wall(w));
                assert(a.concave_after(w) == b.concave_after(w));
            }
        }
        if last_concave_wall(b, sw) {
            assert forall|w: u64| #[trigger] a.has_wall(w) && a.concave_after(w) implies slot_index(w) <= slot_index(sw) by {
                assert(b.has_wall(w));
                assert(a.concave_after(w) == b.concave_after(w));
            }
        }
    }
    assert forall|w: u64| #[trigger] a.cut_settled_from(w) == b.cut_settled_from(w) by {
        let u = a.loop_from(w);
        assert(u == b.loop_from(w));
        assert forall|i: int| #[trigger] a.first_concave_at(u, i) == b.first_concave_at(u, i) by {
            if 0 <= i < u.len() {
                assert(a.concave_after(u[i]) == b.concave_after(u[i]));
            }
            assert forall|j: int| 0 <= j < i implies a.concave_after(#[trigger] u[j]) == b.concave_after(u[j]) by {}
        }
        assert forall|i: int| 0 <= i < u.len() implies a.cut_blocked_right_away(#[trigger] u[i]) == b.cut_blocked_right_away(
            u[i],
        ) by {
            let v = a.loop_from(u[i]);
            assert(v == b.loop_from(u[i]));
            if v.len() >= 3 {
                assert(a.blocks_cut(u[i], v[v.len() - 1]) == b.blocks_cut(u[i], v[v.len() - 1]));
            }
        }
        assert forall|i: int| 0 <= i < u.len() implies a.concave_after(#[trigger] u[i]) == b.concave_after(u[i]) by {}
        if exists|i: int| #[trigger] a.first_concave_at(u, i) && a.cut_blocked_right_away(u[i]) {
            let i = choose|i: int| #[trigger] a.first_concave_at(u, i) && a.cut_blocked_right_away(u[i]);
            assert(b.first_concave_at(u, i) && b.cut_blocked_right_away(u[i]));
        }
        if exists|i: int| #[trigger] b.first_concave_at(u, i) && b.cut_blocked_right_away(u[i]) {
            let i = choose|i: int| #[trigger] b.first_concave_at(u, i) && b.cut_blocked_right_away(u[i]);
            assert(a.first_concave_at(u, i) && a.cut_blocked_right_away(u[i]));
        }
    }
    assert forall|r: u64| #[trigger] a.room_settled(r) == b.room_settled(r) by {
        if a.room_settled(r) {
            let w = choose|w: u64| a.has_wall(w) && a.room_of(w) == r && #[trigger] a.cut_settled_from(w);
            assert(b.has_wall(w) && b.room_of(w) == r && b.cut_settled_from(w));
        }
        if b.room_settled(r) {
            let w = choose|w: u64| b.has_wall(w) && b.room_of(w) == r && #[trigger] b.cut_settled_from(w);
            assert(a.has_wall(w) && a.room_of(w) == r && a.cut_settled_from(w));
        }
    }
    assert(a.all_rooms_settled() == b.all_rooms_settled()) by {
        if a.all_rooms_settled() {
            assert forall|r: u64| #[trigger] b.has_room(r) implies b.room_settled(r) by {
                assert(a.has_room(r));
            }
        }
        if b.all_rooms_settled() {
            assert forall|r: u64| #[trigger] a.has_room(r) implies a.room_settled(r) by {
                assert(b.has_room(r));
            }
        }
    }
}

/// `infos` has one entry for each room of `g`, in increasing slot order, with
/// the room's objects (`object_rooms[i]` is the room of object `i`) and its
/// connected walls in loop order.
pub open spec fn infos_of(g: WorldGeometry, object_rooms: Seq<RoomId>, infos: Seq<(RoomId, RoomInfo)>) -> bool {
    &&& forall|i: int|
        0 <= i < infos.len() ==> {
            &&& g.has_room(#[trigger] infos[i].0.key())
            &&& infos[i].1.object_indices@ == indices_in_room(object_rooms, infos[i].0, object_rooms.len() as int)
            &&& infos[i].1.connecting_walls@.map_values(|w: crate::ids::WallId| w.key()) == connected_walls_of(
                g,
                g.room_loop(infos[i].0.key()),
            )
        }
    &&& forall|k: u64| #[trigger] g.has_room(k) ==> exists|i: int| 0 <= i < infos.len() && #[trigger] infos[i].0.key() == k
    &&& forall|i: int, j: int|
        0 <= i < j < infos.len() ==> slot_index(#[trigger] infos[i].0.key()) < slot_index(#[trigger] infos[j].0.key())
}

/// The processed world.
pub struct ProcessedWorld {
    geometry: WorldGeometry,
    processed_to_source_rooms: RoomSourceMap,
    room_infos: Vec<(RoomId, RoomInfo)>,
    last_result: Result<(), GeometryError>,
    world_change_sub: Subscription,
}

impl ProcessedWorld {
    pub closed spec fn geometry_spec(&self) -> WorldGeometry {
        self.geometry
    }

    /// For each room made by a cut, the source room it was cut from.
    pub closed spec fn sources(&self) -> Map<u64, u64> {
        self.processed_to_source_rooms.view()
    }

    pub closed spec fn infos(&self) -> Seq<(RoomId, RoomInfo)> {
        self.room_infos@
    }

    /// How the last processing ended.
    pub closed spec fn result_spec(&self) -> Result<(), GeometryError> {
        self.last_result
    }

    pub closed spec fn subscription(&self) -> Subscription {
        self.world_change_sub
    }

    /// The state is what processing `source`, with its objects in
    /// `object_rooms`, gives; when processing ended well, every room is convex.
    pub open spec fn built_from(&self, source: WorldGeometry, object_rooms: Seq<RoomId>) -> bool {
        &&& processed_from(self.geometry_spec(), self.sources(), source)
        &&& infos_of(self.geometry_spec(), object_rooms, self.infos())
        &&& processing_outcome(self.geometry_spec(), self.result_spec())
    }

    /// Cuts a copy of `source` and collects the info of every room of the result.
    fn build(source: &WorldGeometry, object_rooms: &Vec<RoomId>) -> (out: (
        WorldGeometry,
        RoomSourceMap,
        Vec<(RoomId, RoomInfo)>,
        Result<(), GeometryError>,
    ))
        requires
            processable(*source),
        ensures
            processed_from(out.0, out.1.view(), *source),
            infos_of(out.0, object_rooms@, out.2@),
            processing_outcome(out.0, out.3),
    {
        let mut geometry = source.duplicate();
        let mut sources = RoomSourceMap::new();
        let ghost g0 = geometry;
        proof {
            assert(g0.num_walls_spec() == source.num_walls_spec());
            assert(g0.num_rooms_spec() == source.num_rooms_spec());
        }
        let result = split_concave_rooms(&mut geometry, &mut sources);
        proof {
            assert forall|k: u64| #[trigger] sources.view().dom().contains(k) implies source.has_room(sources.view()[k]) by {
                let r0 = choose|r0: u64| g0.has_room(r0) && #[trigger] origin(Map::<u64, u64>::empty(), r0) == sources.view()[k];
                assert(origin(Map::<u64, u64>::empty(), r0) == r0);
            }
            if source.all_rooms_convex() {
                assert(g0.all_rooms_convex()) by {
                    assert forall|r: u64| #[trigger] g0.has_room(r) implies g0.room_convex(r) by {
                        assert(source.has_room(r));
                        assert(source.room_convex(r));
                        assert(g0.room_loop(r) == source.room_loop(r));
                        assert forall|i: int| 0 <= i < g0.room_loop(r).len() implies !g0.concave_after(
                            #[trigger] g0.room_loop(r)[i],
                        ) by {
                            let w = source.room_loop(r)[i];
                            assert(!source.concave_after(w));
                            assert(g0.wall(w) == source.wall(w));
                            assert(g0.wall(g0.next_of(w)) == source.wall(source.next_of(w)));
                            assert(g0.wall(g0.next_of(g0.next_of(w))) == source.wall(source.next_of(source.next_of(w))));
                        }
                    }
                }
            }
            assert forall|r: u64| #[trigger] source.has_room(r) implies geometry.has_room(r) by {
                assert(g0.has_room(r));
            }
            assert forall|w: u64| #[trigger] source.has_wall(w) implies geometry.has_wall(w) by {
                assert(g0.has_wall(w));
            }
            assert forall|k: u64| #[trigger] sources.view().dom().contains(k) <==> (geometry.has_room(k) && !source.has_room(k)) by {
                assert(g0.has_room(k) == source.has_room(k));
            }
            lemma_same_records(g0, *source);
            assert forall|w: u64| #[trigger] source.has_wall(w) implies origin(sources.view(), geometry.room_of(w))
                == source.room_of(w) by {
                assert(g0.has_wall(w));
                assert(origin(Map::<u64, u64>::empty(), g0.room_of(w)) == g0.room_of(w));
            }
            assert forall|sw: u64, k: int|
                last_concave_wall(*source, sw) && #[trigger] source.cut_blocked_at(sw, k) implies geometry.num_rooms_spec()
                > source.num_rooms_spec() by {
                assert(last_concave_wall(g0, sw));
                assert(g0.cut_blocked_at(sw, k));
            }
            assert(processed_from(geometry, sources.view(), *source));
            assert(processing_outcome(geometry, result)) by {
                if let Err(e) = result {
                    if e == GeometryError::StepLimit {
                        assert(geometry.num_walls_spec() > 1000);
                    }
                }
            }
        }
        let rooms = geometry.room_ids();
        let mut infos: Vec<(RoomId, RoomInfo)> = Vec::new();
        let mut i: usize = 0;
        while i < rooms.len()
            invariant
                geometry.wf(),
                0 <= i <= rooms@.len(),
                forall|j: int| 0 <= j < rooms@.len() ==> geometry.has_room(#[trigger] rooms@[j].key()),
                infos@.len() == i,
                forall|j: int| 0 <= j < i ==> #[trigger] infos@[j].0 == rooms@[j],
                forall|j: int|
                    0 <= j < i ==> {
                        &&& (#[trigger] infos@[j]).1.object_indices@ == indices_in_room(
                            object_rooms@,
                            infos@[j].0,
                            object_rooms@.len() as int,
                        )
                        &&& infos@[j].1.connecting_walls@.map_values(|w: crate::ids::WallId| w.key()) == connected_walls_of(
                            geometry,
                            geometry.room_loop(infos@[j].0.key()),
                        )
                    },
            decreases rooms@.len() - i,
        {
            let room = rooms[i];
            let info = RoomInfo::collect(&geometry, room, object_rooms);
            infos.push((room, info));
            i = i + 1;
        }
        proof {
            assert forall|k: u64| #[trigger] geometry.has_room(k) implies exists|j: int| 0 <= j < infos@.len() && #[trigger] infos@[j].0.key() == k by {
                let j = choose|j: int| 0 <= j < rooms@.len() && #[trigger] rooms@[j].key() == k;
                assert(infos@[j].0 == rooms@[j]);
            }
            assert forall|a: int, b: int| 0 <= a < b < infos@.len() implies slot_index(#[trigger] infos@[a].0.key()) < slot_index(#[trigger] infos@[b].0.key()) by {
                assert(infos@[a].0 == rooms@[a] && infos@[b].0 == rooms@[b]);
            }
            assert forall|j: int| 0 <= j < infos@.len() implies geometry.has_room(#[trigger] infos@[j].0.key()) by {
                assert(infos@[j].0 == rooms@[j]);
            }
        }
        (geometry, sources, infos, result)
    }

    /// Processes `source`, whose objects lie in `object_rooms`, and subscribes
    /// to the world change events of `bus`.
    pub fn new(source: &WorldGeometry, object_rooms: &Vec<RoomId>, bus: &mut MessageBus<WorldChangedEvent>) -> (pw: ProcessedWorld)
        requires
            processable(*source),
        ensures
            pw.built_from(*source, object_rooms@),
            final(bus)@ == old(bus)@.subscribe(),
            pw.subscription().id() == old(bus)@.cursors.len(),
            final(bus).owns(&pw.subscription()),
    {
        let world_change_sub = bus.subscribe();
        let (geometry, processed_to_source_rooms, room_infos, last_result) = Self::build(source, object_rooms);
        ProcessedWorld { geometry, processed_to_source_rooms, room_infos, last_result, world_change_sub }
    }

    /// Processes `source` again if a world change event arrived since the last
    /// look; the events count as read either way.
    pub fn update(&mut self, source: &WorldGeometry, object_rooms: &Vec<RoomId>, bus: &mut MessageBus<WorldChangedEvent>)
        requires
            processable(*source),
            old(bus).owns(&old(self).subscription()),
        ensures
            final(bus)@ == old(bus)@.mark_read(old(self).subscription().id()),
            final(self).subscription() == old(self).subscription(),
            final(bus).owns(&final(self).subscription()),
            old(bus)@.unread(old(self).subscription().id()).len() > 0 ==> final(self).built_from(*source, object_rooms@),
            old(bus)@.unread(old(self).subscription().id()).len() == 0 ==> *final(self) == *old(self),
    {
        if bus.any(&self.world_change_sub) {
            self.rebuild_world(source, object_rooms);
        }
    }

    fn rebuild_world(&mut self, source: &WorldGeometry, object_rooms: &Vec<RoomId>)
        requires
            processable(*source),
        ensures
            final(self).built_from(*source, object_rooms@),
            final(self).subscription() == old(self).subscription(),
    {
        let (geometry, processed_to_source_rooms, room_infos, last_result) = Self::build(source, object_rooms);
        self.geometry = geometry;
        self.processed_to_source_rooms = processed_to_source_rooms;
        self.room_infos = room_infos;
        self.last_result = last_result;
    }

    /// The processed geometry.
    pub fn geometry(&self) -> (g: &WorldGeometry)
        ensures
            *g == self.geometry_spec(),
    {
        &self.geometry
    }

    /// How the last processing ended: an error means that some room may still
    /// be concave.
    pub fn processing_result(&self) -> (r: Result<(), GeometryError>)
        ensures
            r == self.result_spec(),
    {
        self.last_result
    }

    /// The `i`-th info is the first one for `room`.
    pub open spec fn first_info_at(&self, room: RoomId, i: int) -> bool {
        &&& 0 <= i < self.infos().len()
        &&& self.infos()[i].0 == room
        &&& forall|j: int| 0 <= j < i ==> (#[trigger] self.infos()[j]).0 != room
    }

    /// The info of `room`, if it is a room of the processed geometry.
    pub fn room_info(&self, room: RoomId) -> (info: Option<&RoomInfo>)
        ensures
            info is None <==> forall|i: int| 0 <= i < self.infos().len() ==> (#[trigger] self.infos()[i]).0 != room,
            info matches Some(x) ==> exists|i: int| #[trigger] self.first_info_at(room, i) && self.infos()[i].1 == *x,
    {
        let mut i: usize = 0;
        while i < self.room_infos.len()
            invariant
                0 <= i <= self.room_infos@.len(),
                forall|j: int| 0 <= j < i ==> (#[trigger] self.room_infos@[j]).0 != room,
            decreases self.room_infos@.len() - i,
        {
            if self.room_infos[i].0 == room {
                assert(self.first_info_at(room, i as int));
                return Some(&self.room_infos[i].1);
            }
            i = i + 1;
        }
        None
    }

    /// The indices of the objects in `room`; none for a room that is not in
    /// the processed geometry.
    pub fn object_indices_for_room(&self, room: RoomId) -> (indices: Vec<usize>)
        ensures
            forall|i: int| #[trigger] self.first_info_at(room, i) ==> indices@ == self.infos()[i].1.object_indices@,
            (forall|i: int| 0 <= i < self.infos().len() ==> (#[trigger] self.infos()[i]).0 != room) ==> indices@
                == Seq::<usize>::empty(),
    {
        let mut indices: Vec<usize> = Vec::new();
        match self.room_info(room) {
            Some(info) => {
                let mut j: usize = 0;
                while j < info.object_indices.len()
                    invariant
                        0 <= j <= info.object_indices@.len(),
                        indices@ == info.object_indices@.take(j as int),
                    decreases info.object_indices@.len() - j,
                {
                    indices.push(info.object_indices[j]);
                    j = j + 1;
                    proof {
                        assert(indices@ =~= info.object_indices@.take(j as int));
                    }
                }
                proof {
                    assert(info.object_indices@.take(j as int) =~= info.object_indices@);
                    let k = choose|k: int| #[trigger] self.first_info_at(room, k) && self.infos()[k].1 == *info;
                    assert forall|i: int| #[trigger] self.first_info_at(room, i) implies i == k by {
                        if i < k {
                            assert(self.infos()[i].0 != room);
                        } else if k < i {
                            assert(self.infos()[k].0 != room);
                        }
                    }
                }
            },
            None => {},
        }
        indices
    }

    /// The source room that `processed_room` stands for.
    pub fn to_source_room(&self, processed_room: RoomId) -> (r: RoomId)
        requires
            self.geometry_spec().has_room(processed_room.key()),
        ensures
            r.key() == origin(self.sources(), processed_room.key()),
    {
        self.processed_to_source_rooms.to_source_room(&self.geometry, processed_room)
    }

    /// The processed rooms that stand for `source_room`: the rooms cut from it,
    /// in slot order, then the room itself.
    pub fn to_processed_rooms(&self, source_room: RoomId) -> (rooms: Vec<RoomId>)
        ensures
            exists|entries: Seq<(u64, u64)>|
                lists_entries(self.sources(), entries) && rooms@.map_values(|r: RoomId| r.key()) == rooms_from(
                    entries,
                    source_room.key(),
                ).push(source_room.key()),
    {
        let rooms = self.processed_to_source_rooms.to_processed_rooms(source_room);
        proof {
            let entries = choose|entries: Seq<(u64, u64)>|
                lists_entries(self.sources(), entries) && rooms@.map_values(|r: RoomId| r.key()) == rooms_from(
                    entries,
                    source_room.key(),
                ).push(source_room.key());
            assert(lists_entries(self.sources(), entries));
        }
        rooms
    }
}

/// Each piece remembers the room it was cut from: the processed room of a
/// wall of the source geometry stands for that wall's room in the source.
pub proof fn law_pieces_remember_their_room(g: WorldGeometry, m: Map<u64, u64>, source: WorldGeometry, w: u64)
    requires
        processed_from(g, m, source),
        source.has_wall(w),
    ensures
        g.has_wall(w),
        g.has_room(g.room_of(w)),
        origin(m, g.room_of(w)) == source.room_of(w),
{
    g.lemma_wall_ok(w);
}

/// Every room of the processed geometry stands for a room of the source
/// geometry.
pub proof fn law_processed_rooms_have_sources(g: WorldGeometry, m: Map<u64, u64>, source: WorldGeometry, r: u64)
    requires
        processed_from(g, m, source),
        g.has_room(r),
    ensures
        source.has_room(origin(m, r)),
{
    if !m.dom().contains(r) {
        assert(source.has_room(r));
    }
}

/// Each room of the source geometry stands for itself, and every processed
/// room listed for it is a room of the processed geometry that maps back to it.
pub proof fn law_source_rooms_round_trip(
    g: WorldGeometry,
    m: Map<u64, u64>,
    source: WorldGeometry,
    entries: Seq<(u64, u64)>,
    s: u64,
)
    requires
        processed_from(g, m, source),
        lists_entries(m, entries),
        source.has_room(s),
    ensures
        origin(m, s) == s,
        forall|x: u64| #[trigger] rooms_from(entries, s).push(s).contains(x) ==> g.has_room(x) && origin(m, x) == s,
{
    crate::processing::law_pieces_map_back(m, entries, s);
    assert forall|x: u64| #[trigger] rooms_from(entries, s).push(s).contains(x) implies g.has_room(x) && origin(m, x) == s by {
        if m.dom().contains(x) {
            assert(g.has_room(x));
        } else {
            assert(origin(m, x) == x);
        }
    }
}

} // verus!
