//! Undoing and redoing the editor's changes to rooms, walls and vertices. Such
//! a change only ever alters how an element looks or where a vertex lies; the
//! links between elements stay as they are, so the geometry stays well formed.
use vstd::prelude::*;
use crate::defs::{RoomDef, Vec2i, VertexDef, WallDef};
use crate::editing::{edit_allowed, move_fits, starts_wall_of, GeometryEditCmd};
use crate::editor::Item;
use crate::geometry::WorldGeometry;
use crate::geometry::GeometryError;
use crate::ids::{lemma_room_id_eq, lemma_vertex_id_eq, lemma_wall_id_eq, RoomId, VertexId, WallId};
use crate::message_bus::{BusModel, MessageBus};
use crate::processed_world::WorldChangedEvent;
use crate::undo::{
    handle_undo_cmd, law_set_index_is_repeated_steps, merge_entries, push_entry, push_group_view, steps_between, undo_cmd_outcome,
    EntryTarget, GroupView, UndoCmd, UndoEntry, UndoGroup, UndoStack, UndoStep,
};

verus! {

/// The value an undo entry sets for a room, a wall or a vertex.
#[derive(Clone, Copy, Debug)]
pub enum GeometryValue {
    Room(RoomDef),
    Wall(WallDef),
    Vertex(VertexDef),
}

/// The records of a geometry, by key.
pub struct GeometryMaps {
    pub rooms: Map<u64, RoomDef>,
    pub walls: Map<u64, WallDef>,
    pub vertices: Map<u64, VertexDef>,
}

impl WorldGeometry {
    pub open spec fn maps(&self) -> GeometryMaps {
        GeometryMaps { rooms: self.room_map(), walls: self.wall_map(), vertices: self.vertex_map() }
    }
}

/// `m` with the element named by `t` set to `v`; a value of another kind than
/// its target changes nothing.
pub open spec fn set_value(m: GeometryMaps, t: EntryTarget, v: GeometryValue) -> GeometryMaps {
    match (t, v) {
        (EntryTarget::Room(r), GeometryValue::Room(d)) => GeometryMaps { rooms: m.rooms.insert(r.key(), d), ..m },
        (EntryTarget::Wall(w), GeometryValue::Wall(d)) => GeometryMaps { walls: m.walls.insert(w.key(), d), ..m },
        (EntryTarget::Vertex(x), GeometryValue::Vertex(d)) => GeometryMaps { vertices: m.vertices.insert(x.key(), d), ..m },
        _ => m,
    }
}

/// `b` with `n` more [`WorldChangedEvent`]s emitted.
pub open spec fn emit_world_changed(b: BusModel<WorldChangedEvent>, n: nat) -> BusModel<WorldChangedEvent>
    decreases n,
{
    if n == 0 {
        b
    } else {
        emit_world_changed(b, (n - 1) as nat).emit(WorldChangedEvent)
    }
}

/// Emitting `m` and then `k` messages emits `m + k`.
proof fn lemma_emit_world_changed_add(b: BusModel<WorldChangedEvent>, m: nat, k: nat)
    ensures
        emit_world_changed(emit_world_changed(b, m), k) == emit_world_changed(b, m + k),
    decreases k,
{
    if k > 0 {
        lemma_emit_world_changed_add(b, m, (k - 1) as nat);
        assert((m + k - 1) as nat == m + (k - 1) as nat);
    }
}

/// `m` after redoing `es`: each entry's `after`, first entry first.
pub open spec fn redo_all(m: GeometryMaps, es: Seq<UndoEntry<GeometryValue>>) -> GeometryMaps
    decreases es.len(),
{
    if es.len() == 0 {
        m
    } else {
        set_value(redo_all(m, es.drop_last()), es.last().target, es.last().after)
    }
}

/// `m` after undoing `es`: each entry's `before`, last entry first.
pub open spec fn undo_all(m: GeometryMaps, es: Seq<UndoEntry<GeometryValue>>) -> GeometryMaps
    decreases es.len(),
{
    if es.len() == 0 {
        m
    } else {
        undo_all(set_value(m, es.last().target, es.last().before), es.drop_last())
    }
}

/// `v` is of the kind of `t`, `t` names an element of `g`, and `v` keeps that
/// element's links.
pub open spec fn value_fits(g: WorldGeometry, t: EntryTarget, v: GeometryValue) -> bool {
    match (t, v) {
        (EntryTarget::Room(r), GeometryValue::Room(d)) => g.has_room(r.key()) && d.first_wall == g.room(r.key()).first_wall,
        (EntryTarget::Wall(w), GeometryValue::Wall(d)) => {
            let c = g.wall(w.key());
            &&& g.has_wall(w.key())
            &&& d.source_vertex == c.source_vertex
            &&& d.next_wall == c.next_wall
            &&& d.prev_wall == c.prev_wall
            &&& d.connected_wall == c.connected_wall
            &&& d.room == c.room
        },
        (EntryTarget::Vertex(x), GeometryValue::Vertex(d)) => g.has_vertex(x.key()) && d.outgoing_wall == g.vertex(
            x.key(),
        ).outgoing_wall,
        _ => false,
    }
}

/// Both values of every entry of `es` fit `g`.
pub open spec fn changes_fit(g: WorldGeometry, es: Seq<UndoEntry<GeometryValue>>) -> bool {
    forall|i: int| 0 <= i < es.len() ==> value_fits(g, (#[trigger] es[i]).target, es[i].before) && value_fits(g, es[i].target, es[i].after)
}

/// `g` and `g0` have the same elements with the same links.
pub open spec fn same_links(g: WorldGeometry, g0: WorldGeometry) -> bool {
    &&& g.room_map().dom() == g0.room_map().dom()
    &&& g.wall_map().dom() == g0.wall_map().dom()
    &&& g.vertex_map().dom() == g0.vertex_map().dom()
    &&& forall|r: u64| #[trigger] g.has_room(r) ==> g.room(r).first_wall == g0.room(r).first_wall
    &&& forall|w: u64|
        #[trigger] g.has_wall(w) ==> {
            &&& g.wall(w).source_vertex == g0.wall(w).source_vertex
            &&& g.wall(w).next_wall == g0.wall(w).next_wall
            &&& g.wall(w).prev_wall == g0.wall(w).prev_wall
            &&& g.wall(w).connected_wall == g0.wall(w).connected_wall
            &&& g.wall(w).room == g0.wall(w).room
        }
    &&& forall|x: u64| #[trigger] g.has_vertex(x) ==> g.vertex(x).outgoing_wall == g0.vertex(x).outgoing_wall
}

/// A value fits the same targets in geometries with the same links.
proof fn lemma_fits_same_links(g: WorldGeometry, g0: WorldGeometry, t: EntryTarget, v: GeometryValue)
    requires
        same_links(g, g0),
    ensures
        value_fits(g, t, v) == value_fits(g0, t, v),
{
    match (t, v) {
        (EntryTarget::Room(r), GeometryValue::Room(d)) => {
            if g0.has_room(r.key()) {
                assert(g.has_room(r.key()));
            }
        },
        (EntryTarget::Wall(w), GeometryValue::Wall(d)) => {
            if g0.has_wall(w.key()) {
                assert(g.has_wall(w.key()));
            }
        },
        (EntryTarget::Vertex(x), GeometryValue::Vertex(d)) => {
            if g0.has_vertex(x.key()) {
                assert(g.has_vertex(x.key()));
            }
        },
        _ => {},
    }
}

/// Having the same links is transitive.
proof fn lemma_same_links_trans(a: WorldGeometry, b: WorldGeometry, c: WorldGeometry)
    requires
        same_links(a, b),
        same_links(b, c),
    ensures
        same_links(a, c),
{
    assert forall|r: u64| #[trigger] a.has_room(r) implies a.room(r).first_wall == c.room(r).first_wall by {
        assert(b.has_room(r));
    }
    assert forall|w: u64| #[trigger] a.has_wall(w) implies {
        &&& a.wall(w).source_vertex == c.wall(w).source_vertex
        &&& a.wall(w).next_wall == c.wall(w).next_wall
        &&& a.wall(w).prev_wall == c.wall(w).prev_wall
        &&& a.wall(w).connected_wall == c.wall(w).connected_wall
        &&& a.wall(w).room == c.wall(w).room
    } by {
        assert(b.has_wall(w));
    }
    assert forall|x: u64| #[trigger] a.has_vertex(x) implies a.vertex(x).outgoing_wall == c.vertex(x).outgoing_wall by {
        assert(b.has_vertex(x));
    }
}

/// Sets the element named by `target` to `value`.
fn apply_change(geometry: &mut WorldGeometry, target: EntryTarget, value: &GeometryValue)
    requires
        old(geometry).wf(),
        value_fits(*old(geometry), target, *value),
    ensures
        final(geometry).wf(),
        final(geometry).maps() == set_value(old(geometry).maps(), target, *value),
        final(geometry).room_loops() == old(geometry).room_loops(),
        same_links(*final(geometry), *old(geometry)),
{
    let ghost g0 = *old(geometry);
    match (target, value) {
        (EntryTarget::Room(room), GeometryValue::Room(d)) => {
            geometry.set_room_appearance(room, d.floor_color, d.ceiling_color, d.height);
            proof {
                assert(geometry.room_map().dom() =~= g0.room_map().dom());
            }
        },
        (EntryTarget::Wall(wall), GeometryValue::Wall(d)) => {
            geometry.set_wall_appearance(wall, d.color, d.vertical_offset, d.horizontal_offset);
            proof {
                assert(geometry.wall_map().dom() =~= g0.wall_map().dom());
            }
        },
        (EntryTarget::Vertex(vertex), GeometryValue::Vertex(d)) => {
            geometry.set_vertex_position(vertex, d.position);
            proof {
                assert(geometry.vertex_map().dom() =~= g0.vertex_map().dom());
            }
        },
        _ => {},
    }
}

impl UndoEntry<GeometryValue> {
    /// Sets the target back to its value before the change, and tells `bus`
    /// that the world changed.
    pub fn undo(&self, geometry: &mut WorldGeometry, bus: &mut MessageBus<WorldChangedEvent>)
        requires
            old(geometry).wf(),
            value_fits(*old(geometry), self.target, self.before),
        ensures
            final(geometry).wf(),
            final(geometry).maps() == set_value(old(geometry).maps(), self.target, self.before),
            same_links(*final(geometry), *old(geometry)),
            final(bus)@ == old(bus)@.emit(WorldChangedEvent),
    {
        apply_change(geometry, self.target, &self.before);
        bus.emit(WorldChangedEvent);
    }

    /// Sets the target to its value after the change, and tells `bus` that
    /// the world changed.
    pub fn redo(&self, geometry: &mut WorldGeometry, bus: &mut MessageBus<WorldChangedEvent>)
        requires
            old(geometry).wf(),
            value_fits(*old(geometry), self.target, self.after),
        ensures
            final(geometry).wf(),
            final(geometry).maps() == set_value(old(geometry).maps(), self.target, self.after),
            same_links(*final(geometry), *old(geometry)),
            final(bus)@ == old(bus)@.emit(WorldChangedEvent),
    {
        apply_change(geometry, self.target, &self.after);
        bus.emit(WorldChangedEvent);
    }
}

impl UndoGroup<GeometryValue> {
    /// Redoes the group's changes, first change first; `bus` is told of each.
    pub fn redo(&self, geometry: &mut WorldGeometry, bus: &mut MessageBus<WorldChangedEvent>)
        requires
            old(geometry).wf(),
            changes_fit(*old(geometry), self.view().0),
        ensures
            final(geometry).wf(),
            final(geometry).maps() == redo_all(old(geometry).maps(), self.view().0),
            same_links(*final(geometry), *old(geometry)),
            final(bus)@ == emit_world_changed(old(bus)@, self.view().0.len()),
    {
        let ghost g0 = *old(geometry);
        let ghost b0 = old(bus)@;
        let changes = self.changes();
        let ghost es = changes@;
        let mut i: usize = 0;
        while i < changes.len()
            invariant
                es == changes@,
                0 <= i <= es.len(),
                geometry.wf(),
                changes_fit(g0, es),
                same_links(*geometry, g0),
                geometry.maps() == redo_all(g0.maps(), es.take(i as int)),
                bus@ == emit_world_changed(b0, i as nat),
            decreases es.len() - i,
        {
            let ghost g = *geometry;
            proof {
                lemma_fits_same_links(*geometry, g0, es[i as int].target, es[i as int].after);
            }
            changes[i].redo(geometry, bus);
            proof {
                lemma_same_links_trans(*geometry, g, g0);
                assert(es.take(i as int + 1).drop_last() =~= es.take(i as int));
                assert(es.take(i as int + 1).last() == es[i as int]);
            }
            i = i + 1;
        }
        proof {
            assert(es.take(es.len() as int) =~= es);
        }
    }

    /// Undoes the group's changes, last change first; `bus` is told of each.
    pub fn undo(&self, geometry: &mut WorldGeometry, bus: &mut MessageBus<WorldChangedEvent>)
        requires
            old(geometry).wf(),
            changes_fit(*old(geometry), self.view().0),
        ensures
            final(geometry).wf(),
            final(geometry).maps() == undo_all(old(geometry).maps(), self.view().0),
            same_links(*final(geometry), *old(geometry)),
            final(bus)@ == emit_world_changed(old(bus)@, self.view().0.len()),
    {
        let ghost g0 = *old(geometry);
        let ghost b0 = old(bus)@;
        let changes = self.changes();
        let ghost es = changes@;
        let mut i: usize = changes.len();
        proof {
            assert(es.take(es.len() as int) =~= es);
        }
        while i > 0
            invariant
                es == changes@,
                0 <= i <= es.len(),
                geometry.wf(),
                changes_fit(g0, es),
                same_links(*geometry, g0),
                undo_all(g0.maps(), es) == undo_all(geometry.maps(), es.take(i as int)),
                bus@ == emit_world_changed(b0, (es.len() - i) as nat),
            decreases i,
        {
            proof {
                lemma_fits_same_links(*geometry, g0, es[i - 1].target, es[i - 1].before);
                assert(es.take(i as int).drop_last() =~= es.take(i - 1));
                assert(es.take(i as int).last() == es[i - 1]);
            }
            let ghost g = *geometry;
            changes[i - 1].undo(geometry, bus);
            proof {
                lemma_same_links_trans(*geometry, g, g0);
            }
            i = i - 1;
        }
    }
}

/// Changes that fit one geometry fit every geometry with the same links.
proof fn lemma_changes_fit_same_links(g: WorldGeometry, g0: WorldGeometry, es: Seq<UndoEntry<GeometryValue>>)
    requires
        same_links(g, g0),
        changes_fit(g0, es),
    ensures
        changes_fit(g, es),
{
    assert forall|i: int| 0 <= i < es.len() implies value_fits(g, (#[trigger] es[i]).target, es[i].before) && value_fits(
        g,
        es[i].target,
        es[i].after,
    ) by {
        lemma_fits_same_links(g, g0, es[i].target, es[i].before);
        lemma_fits_same_links(g, g0, es[i].target, es[i].after);
    }
}

/// The history's groups that fit one geometry fit every geometry with the
/// same links.
proof fn lemma_changes_fit_same_links_all(g: WorldGeometry, g0: WorldGeometry, groups: Seq<GroupView<GeometryValue>>)
    requires
        same_links(g, g0),
        forall|i: int| 0 <= i < groups.len() ==> changes_fit(g0, (#[trigger] groups[i]).0),
    ensures
        forall|i: int| 0 <= i < groups.len() ==> changes_fit(g, (#[trigger] groups[i]).0),
{
    assert forall|i: int| 0 <= i < groups.len() implies changes_fit(g, (#[trigger] groups[i]).0) by {
        lemma_changes_fit_same_links(g, g0, groups[i].0);
    }
}

/// `m` after `steps`, in order: each undoes or redoes its group of `groups`.
pub open spec fn apply_steps(m: GeometryMaps, groups: Seq<GroupView<GeometryValue>>, steps: Seq<UndoStep>) -> GeometryMaps
    decreases steps.len(),
{
    if steps.len() == 0 {
        m
    } else {
        let m1 = apply_steps(m, groups, steps.drop_last());
        let s = steps.last();
        if s.undo {
            undo_all(m1, groups[s.group as int].0)
        } else {
            redo_all(m1, groups[s.group as int].0)
        }
    }
}

/// How many changes `steps` apply, each undoing or redoing its group of
/// `groups`.
pub open spec fn changes_applied(groups: Seq<GroupView<GeometryValue>>, steps: Seq<UndoStep>) -> nat
    decreases steps.len(),
{
    if steps.len() == 0 {
        0
    } else {
        changes_applied(groups, steps.drop_last()) + groups[steps.last().group as int].0.len()
    }
}

/// Every step an undo command gives names a group of the history.
proof fn lemma_outcome_in_range(index: nat, len: nat, cmd: UndoCmd)
    requires
        index <= len,
    ensures
        forall|j: int| 0 <= j < undo_cmd_outcome(index, len, cmd).0.len() ==> (#[trigger] undo_cmd_outcome(index, len, cmd).0[j]).group < len,
{
    let steps = undo_cmd_outcome(index, len, cmd).0;
    match cmd {
        UndoCmd::SetIndex(target) => {
            if index != target {
                let t = if target < len { target as int } else { len as int };
                assert forall|j: int| 0 <= j < steps.len() implies (#[trigger] steps[j]).group < len by {
                    assert(steps == steps_between(index as int, t));
                }
            }
        },
        _ => {},
    }
}

/// Carries out an undo command on the history and on the geometry: the groups
/// that [`handle_undo_cmd`] gives are undone or redone, in order, and `bus` is
/// told of every change applied.
pub fn apply_undo_cmd(
    stack: &mut UndoStack<GeometryValue>,
    geometry: &mut WorldGeometry,
    bus: &mut MessageBus<WorldChangedEvent>,
    cmd: UndoCmd,
) -> (steps: Vec<UndoStep>)
    requires
        old(geometry).wf(),
        forall|i: int| 0 <= i < old(stack).groups().len() ==> changes_fit(*old(geometry), (#[trigger] old(stack).groups()[i]).0),
    ensures
        final(stack).groups() == old(stack).groups(),
        steps@ == undo_cmd_outcome(old(stack).index_spec(), old(stack).groups().len(), cmd).0,
        final(stack).index_spec() == undo_cmd_outcome(old(stack).index_spec(), old(stack).groups().len(), cmd).1,
        final(geometry).wf(),
        final(geometry).maps() == apply_steps(old(geometry).maps(), old(stack).groups(), steps@),
        same_links(*final(geometry), *old(geometry)),
        forall|i: int| 0 <= i < final(stack).groups().len() ==> changes_fit(*final(geometry), (#[trigger] final(stack).groups()[i]).0),
        final(bus)@ == emit_world_changed(old(bus)@, changes_applied(old(stack).groups(), steps@)),
{
    let ghost g0 = *old(geometry);
    let ghost b0 = old(bus)@;
    let ghost groups = old(stack).groups();
    let _ = stack.index();
    let steps = handle_undo_cmd(stack, cmd);
    proof {
        lemma_outcome_in_range(old(stack).index_spec(), groups.len(), cmd);
        assert(same_links(g0, g0));
    }
    let mut i: usize = 0;
    while i < steps.len()
        invariant
            stack.groups() == groups,
            forall|j: int| 0 <= j < groups.len() ==> changes_fit(g0, (#[trigger] groups[j]).0),
            forall|j: int| 0 <= j < steps@.len() ==> (#[trigger] steps@[j]).group < groups.len(),
            0 <= i <= steps@.len(),
            geometry.wf(),
            same_links(*geometry, g0),
            geometry.maps() == apply_steps(g0.maps(), groups, steps@.take(i as int)),
            bus@ == emit_world_changed(b0, changes_applied(groups, steps@.take(i as int))),
        decreases steps@.len() - i,
    {
        let step = steps[i];
        let group = stack.group(step.group);
        let ghost g = *geometry;
        proof {
            assert(steps@[i as int].group < groups.len());
            lemma_changes_fit_same_links(*geometry, g0, groups[step.group as int].0);
            assert(steps@.take(i as int + 1).drop_last() =~= steps@.take(i as int));
            assert(steps@.take(i as int + 1).last() == step);
        }
        let ghost b = bus@;
        if step.undo {
            group.undo(geometry, bus);
        } else {
            group.redo(geometry, bus);
        }
        proof {
            lemma_same_links_trans(*geometry, g, g0);
            lemma_emit_world_changed_add(b0, changes_applied(groups, steps@.take(i as int)), groups[step.group as int].0.len());
        }
        i = i + 1;
    }
    proof {
        assert(steps@.take(steps@.len() as int) =~= steps@);
        lemma_changes_fit_same_links_all(*geometry, g0, groups);
    }
    steps
}

/// `after` keeps the links of room `r` of `g`.
pub open spec fn room_links_kept(g: WorldGeometry, r: u64, after: RoomDef) -> bool {
    after.first_wall == g.room(r).first_wall
}

/// `after` keeps the links of wall `w` of `g`.
pub open spec fn wall_links_kept(g: WorldGeometry, w: u64, after: WallDef) -> bool {
    let c = g.wall(w);
    &&& after.source_vertex == c.source_vertex
    &&& after.next_wall == c.next_wall
    &&& after.prev_wall == c.prev_wall
    &&& after.connected_wall == c.connected_wall
    &&& after.room == c.room
}

/// `after` keeps the link of vertex `v` of `g`.
pub open spec fn vertex_links_kept(g: WorldGeometry, v: u64, after: VertexDef) -> bool {
    after.outgoing_wall == g.vertex(v).outgoing_wall
}

impl UndoGroup<GeometryValue> {
    /// Records a change of `room` to `after`, as given. A room that does not
    /// exist is refused. The history cannot hold a change of a room's first
    /// wall: undoing or redoing it would unlink the room from its walls, so
    /// such a change is refused with `LinksChanged` and nothing is recorded.
    pub fn update_room(&mut self, geometry: &WorldGeometry, room: RoomId, after: RoomDef) -> (res: Result<(), GeometryError>)
        ensures
            !geometry.has_room(room.key()) ==> res == Err::<(), GeometryError>(GeometryError::InvalidId),
            geometry.has_room(room.key()) && !room_links_kept(*geometry, room.key(), after) ==> res == Err::<
                (),
                GeometryError,
            >(GeometryError::LinksChanged),
            res is Err ==> final(self).view() == old(self).view(),
            res is Ok <==> geometry.has_room(room.key()) && room_links_kept(*geometry, room.key(), after),
            res is Ok ==> final(self).view() == (
                push_entry(
                    old(self).view().0,
                    UndoEntry {
                        target: EntryTarget::Room(room),
                        before: GeometryValue::Room(geometry.room(room.key())),
                        after: GeometryValue::Room(after),
                    },
                ),
                old(self).view().1,
            ),
    {
        if !room.is_valid(geometry) {
            return Err(GeometryError::InvalidId);
        }
        let before = room.get(geometry);
        proof {
            lemma_wall_id_eq(after.first_wall, before.first_wall);
        }
        if after.first_wall != before.first_wall {
            return Err(GeometryError::LinksChanged);
        }
        self.push(UndoEntry { target: EntryTarget::Room(room), before: GeometryValue::Room(before), after: GeometryValue::Room(after) });
        Ok(())
    }

    /// Records a change of `wall` to `after`, as given. A wall that does not
    /// exist is refused. The history cannot hold a change of a wall's links
    /// (its vertex, neighbours, connection or room): such a change is refused
    /// with `LinksChanged` and nothing is recorded.
    pub fn update_wall(&mut self, geometry: &WorldGeometry, wall: WallId, after: WallDef) -> (res: Result<(), GeometryError>)
        ensures
            !geometry.has_wall(wall.key()) ==> res == Err::<(), GeometryError>(GeometryError::InvalidId),
            geometry.has_wall(wall.key()) && !wall_links_kept(*geometry, wall.key(), after) ==> res == Err::<
                (),
                GeometryError,
            >(GeometryError::LinksChanged),
            res is Err ==> final(self).view() == old(self).view(),
            res is Ok <==> geometry.has_wall(wall.key()) && wall_links_kept(*geometry, wall.key(), after),
            res is Ok ==> final(self).view() == (
                push_entry(
                    old(self).view().0,
                    UndoEntry {
                        target: EntryTarget::Wall(wall),
                        before: GeometryValue::Wall(geometry.wall(wall.key())),
                        after: GeometryValue::Wall(after),
                    },
                ),
                old(self).view().1,
            ),
    {
        if !wall.is_valid(geometry) {
            return Err(GeometryError::InvalidId);
        }
        let before = wall.get(geometry);
        proof {
            lemma_vertex_id_eq(after.source_vertex, before.source_vertex);
            lemma_wall_id_eq(after.next_wall, before.next_wall);
            lemma_wall_id_eq(after.prev_wall, before.prev_wall);
            lemma_room_id_eq(after.room, before.room);
            if let (Some(a), Some(b)) = (after.connected_wall, before.connected_wall) {
                lemma_wall_id_eq(a, b);
            }
        }
        let same_connection = match (after.connected_wall, before.connected_wall) {
            (Some(a), Some(b)) => a == b,
            (None, None) => true,
            _ => false,
        };
        if after.source_vertex != before.source_vertex || after.next_wall != before.next_wall
            || after.prev_wall != before.prev_wall || after.room != before.room || !same_connection {
            return Err(GeometryError::LinksChanged);
        }
        self.push(UndoEntry { target: EntryTarget::Wall(wall), before: GeometryValue::Wall(before), after: GeometryValue::Wall(after) });
        Ok(())
    }

    /// Records a change of `vertex` to `after`, as given. A vertex that does not
    /// exist is refused. The history cannot hold a change of a vertex's
    /// outgoing wall: such a change is refused with `LinksChanged` and nothing
    /// is recorded.
    pub fn update_vertex(&mut self, geometry: &WorldGeometry, vertex: VertexId, after: VertexDef) -> (res: Result<(), GeometryError>)
        ensures
            !geometry.has_vertex(vertex.key()) ==> res == Err::<(), GeometryError>(GeometryError::InvalidId),
            geometry.has_vertex(vertex.key()) && !vertex_links_kept(*geometry, vertex.key(), after) ==> res == Err::<
                (),
                GeometryError,
            >(GeometryError::LinksChanged),
            res is Err ==> final(self).view() == old(self).view(),
            res is Ok <==> geometry.has_vertex(vertex.key()) && vertex_links_kept(*geometry, vertex.key(), after),
            res is Ok ==> final(self).view() == (
                push_entry(
                    old(self).view().0,
                    UndoEntry {
                        target: EntryTarget::Vertex(vertex),
                        before: GeometryValue::Vertex(geometry.vertex(vertex.key())),
                        after: GeometryValue::Vertex(after),
                    },
                ),
                old(self).view().1,
            ),
    {
        if !vertex.is_valid(geometry) {
            return Err(GeometryError::InvalidId);
        }
        let before = vertex.get(geometry);
        proof {
            lemma_wall_id_eq(after.outgoing_wall, before.outgoing_wall);
        }
        if after.outgoing_wall != before.outgoing_wall {
            return Err(GeometryError::LinksChanged);
        }
        self.push(
            UndoEntry { target: EntryTarget::Vertex(vertex), before: GeometryValue::Vertex(before), after: GeometryValue::Vertex(after) },
        );
        Ok(())
    }
}

/// Applies a recorded group to the geometry, telling `bus` of each change, and
/// adds it to the history; an empty group does nothing.
pub fn submit_group(
    stack: &mut UndoStack<GeometryValue>,
    geometry: &mut WorldGeometry,
    bus: &mut MessageBus<WorldChangedEvent>,
    group: UndoGroup<GeometryValue>,
    in_merge_window: bool,
)
    requires
        old(geometry).wf(),
        changes_fit(*old(geometry), group.view().0),
    ensures
        final(geometry).wf(),
        group.view().0.len() == 0 ==> final(geometry).maps() == old(geometry).maps() && final(stack).groups() == old(stack).groups()
            && final(stack).index_spec() == old(stack).index_spec(),
        group.view().0.len() > 0 ==> {
            &&& final(geometry).maps() == redo_all(old(geometry).maps(), group.view().0)
            &&& final(stack).groups() == push_group_view(old(stack).groups(), old(stack).index_spec() as int, group.view(), in_merge_window)
            &&& final(stack).index_spec() == final(stack).groups().len()
        },
        final(bus)@ == emit_world_changed(old(bus)@, group.view().0.len()),
{
    if group.is_empty() {
        return;
    }
    group.redo(geometry, bus);
    stack.push_group(group, in_merge_window);
}

/// The element of `m` named by `t` exists, `v` is of its kind, and equals it.
pub open spec fn holds_value(m: GeometryMaps, t: EntryTarget, v: GeometryValue) -> bool {
    match (t, v) {
        (EntryTarget::Room(r), GeometryValue::Room(d)) => m.rooms.dom().contains(r.key()) && m.rooms[r.key()] == d,
        (EntryTarget::Wall(w), GeometryValue::Wall(d)) => m.walls.dom().contains(w.key()) && m.walls[w.key()] == d,
        (EntryTarget::Vertex(x), GeometryValue::Vertex(d)) => m.vertices.dom().contains(x.key()) && m.vertices[x.key()]
            == d,
        _ => false,
    }
}

/// `t` names the room with key `k`.
pub open spec fn targets_room(t: EntryTarget, k: u64) -> bool {
    t matches EntryTarget::Room(r) && r.key() == k
}

/// `t` names the wall with key `k`.
pub open spec fn targets_wall(t: EntryTarget, k: u64) -> bool {
    t matches EntryTarget::Wall(w) && w.key() == k
}

/// `t` names the vertex with key `k`.
pub open spec fn targets_vertex(t: EntryTarget, k: u64) -> bool {
    t matches EntryTarget::Vertex(x) && x.key() == k
}

/// Some entry of `es` targets the room, wall or vertex with key `k`.
pub open spec fn touches_room(es: Seq<UndoEntry<GeometryValue>>, k: u64) -> bool {
    exists|i: int| 0 <= i < es.len() && targets_room(#[trigger] es[i].target, k)
}

pub open spec fn touches_wall(es: Seq<UndoEntry<GeometryValue>>, k: u64) -> bool {
    exists|i: int| 0 <= i < es.len() && targets_wall(#[trigger] es[i].target, k)
}

pub open spec fn touches_vertex(es: Seq<UndoEntry<GeometryValue>>, k: u64) -> bool {
    exists|i: int| 0 <= i < es.len() && targets_vertex(#[trigger] es[i].target, k)
}

/// `m` has the keys of `m0`, and agrees with it wherever `es` does not touch.
pub open spec fn agrees_untouched(m: GeometryMaps, m0: GeometryMaps, es: Seq<UndoEntry<GeometryValue>>) -> bool {
    &&& m.rooms.dom() == m0.rooms.dom()
    &&& m.walls.dom() == m0.walls.dom()
    &&& m.vertices.dom() == m0.vertices.dom()
    &&& forall|k: u64| #[trigger] m0.rooms.dom().contains(k) && !touches_room(es, k) ==> m.rooms[k] == m0.rooms[k]
    &&& forall|k: u64| #[trigger] m0.walls.dom().contains(k) && !touches_wall(es, k) ==> m.walls[k] == m0.walls[k]
    &&& forall|k: u64| #[trigger] m0.vertices.dom().contains(k) && !touches_vertex(es, k) ==> m.vertices[k] == m0.vertices[k]
}

/// An element untouched by `es` is untouched by its first entries.
proof fn lemma_untouched_prefix(es: Seq<UndoEntry<GeometryValue>>, k: u64)
    requires
        es.len() > 0,
    ensures
        !touches_room(es, k) ==> !touches_room(es.drop_last(), k) && !targets_room(es.last().target, k),
        !touches_wall(es, k) ==> !touches_wall(es.drop_last(), k) && !targets_wall(es.last().target, k),
        !touches_vertex(es, k) ==> !touches_vertex(es.drop_last(), k) && !targets_vertex(es.last().target, k),
        touches_room(es, k) && !targets_room(es.last().target, k) ==> touches_room(es.drop_last(), k),
        touches_wall(es, k) && !targets_wall(es.last().target, k) ==> touches_wall(es.drop_last(), k),
        touches_vertex(es, k) && !targets_vertex(es.last().target, k) ==> touches_vertex(
            es.drop_last(),
            k,
        ),
{
    let p = es.drop_last();
    let n = es.len() - 1;
    assert(es.last() == es[n]);
    if touches_room(p, k) {
        let i = choose|i: int| 0 <= i < p.len() && targets_room(#[trigger] p[i].target, k);
        assert(es[i] == p[i]);
    }
    if touches_wall(p, k) {
        let i = choose|i: int| 0 <= i < p.len() && targets_wall(#[trigger] p[i].target, k);
        assert(es[i] == p[i]);
    }
    if touches_vertex(p, k) {
        let i = choose|i: int| 0 <= i < p.len() && targets_vertex(#[trigger] p[i].target, k);
        assert(es[i] == p[i]);
    }
    if touches_room(es, k) && !targets_room(es.last().target, k) {
        let i = choose|i: int| 0 <= i < es.len() && targets_room(#[trigger] es[i].target, k);
        assert(i < n);
        assert(p[i] == es[i]);
    }
    if touches_wall(es, k) && !targets_wall(es.last().target, k) {
        let i = choose|i: int| 0 <= i < es.len() && targets_wall(#[trigger] es[i].target, k);
        assert(i < n);
        assert(p[i] == es[i]);
    }
    if touches_vertex(es, k) && !targets_vertex(es.last().target, k) {
        let i = choose|i: int| 0 <= i < es.len() && targets_vertex(#[trigger] es[i].target, k);
        assert(i < n);
        assert(p[i] == es[i]);
    }
    if targets_room(es.last().target, k) {
        assert(touches_room(es, k));
    }
    if targets_wall(es.last().target, k) {
        assert(touches_wall(es, k));
    }
    if targets_vertex(es.last().target, k) {
        assert(touches_vertex(es, k));
    }
}

/// Redoing changes whose targets exist keeps the keys and leaves untouched
/// elements alone.
proof fn lemma_redo_agrees(m0: GeometryMaps, es: Seq<UndoEntry<GeometryValue>>)
    requires
        forall|i: int| 0 <= i < es.len() ==> holds_value(m0, (#[trigger] es[i]).target, es[i].before),
    ensures
        agrees_untouched(redo_all(m0, es), m0, es),
    decreases es.len(),
{
    if es.len() > 0 {
        let p = es.drop_last();
        assert forall|i: int| 0 <= i < p.len() implies holds_value(m0, (#[trigger] p[i]).target, p[i].before) by {
            assert(p[i] == es[i]);
        }
        lemma_redo_agrees(m0, p);
        let m = redo_all(m0, p);
        let last = es[es.len() - 1];
        assert(es.last() == last);
        assert(holds_value(m0, last.target, last.before));
        let m1 = set_value(m, last.target, last.after);
        assert(m1 == redo_all(m0, es));
        assert(m1.rooms.dom() =~= m0.rooms.dom());
        assert(m1.walls.dom() =~= m0.walls.dom());
        assert(m1.vertices.dom() =~= m0.vertices.dom());
        assert forall|k: u64| #[trigger] m0.rooms.dom().contains(k) && !touches_room(es, k) implies m1.rooms[k] == m0.rooms[k] by {
            lemma_untouched_prefix(es, k);
        }
        assert forall|k: u64| #[trigger] m0.walls.dom().contains(k) && !touches_wall(es, k) implies m1.walls[k] == m0.walls[k] by {
            lemma_untouched_prefix(es, k);
        }
        assert forall|k: u64| #[trigger] m0.vertices.dom().contains(k) && !touches_vertex(es, k) implies m1.vertices[k]
            == m0.vertices[k] by {
            lemma_untouched_prefix(es, k);
        }
    } else {
        assert forall|k: u64| !touches_room(es, k) && !touches_wall(es, k) && !touches_vertex(es, k) by {
            if touches_room(es, k) {
                let i = choose|i: int| 0 <= i < es.len() && targets_room(#[trigger] es[i].target, k);
            }
            if touches_wall(es, k) {
                let i = choose|i: int| 0 <= i < es.len() && targets_wall(#[trigger] es[i].target, k);
            }
            if touches_vertex(es, k) {
                let i = choose|i: int| 0 <= i < es.len() && targets_vertex(#[trigger] es[i].target, k);
            }
        }
    }
}

/// Undoing changes whose `before` values are those of `m0`, from a state that
/// agrees with `m0` wherever they do not touch, gives `m0` back.
proof fn lemma_undo_restores(m: GeometryMaps, m0: GeometryMaps, es: Seq<UndoEntry<GeometryValue>>)
    requires
        forall|i: int| 0 <= i < es.len() ==> holds_value(m0, (#[trigger] es[i]).target, es[i].before),
        agrees_untouched(m, m0, es),
    ensures
        undo_all(m, es) == m0,
    decreases es.len(),
{
    if es.len() == 0 {
        assert forall|k: u64| !touches_room(es, k) && !touches_wall(es, k) && !touches_vertex(es, k) by {
            if touches_room(es, k) {
                let i = choose|i: int| 0 <= i < es.len() && targets_room(#[trigger] es[i].target, k);
            }
            if touches_wall(es, k) {
                let i = choose|i: int| 0 <= i < es.len() && targets_wall(#[trigger] es[i].target, k);
            }
            if touches_vertex(es, k) {
                let i = choose|i: int| 0 <= i < es.len() && targets_vertex(#[trigger] es[i].target, k);
            }
        }
        assert(m.rooms =~= m0.rooms);
        assert(m.walls =~= m0.walls);
        assert(m.vertices =~= m0.vertices);
    } else {
        let p = es.drop_last();
        let last = es[es.len() - 1];
        assert(es.last() == last);
        assert(holds_value(m0, last.target, last.before));
        let m1 = set_value(m, last.target, last.before);
        assert forall|i: int| 0 <= i < p.len() implies holds_value(m0, (#[trigger] p[i]).target, p[i].before) by {
            assert(p[i] == es[i]);
        }
        assert(m1.rooms.dom() =~= m0.rooms.dom());
        assert(m1.walls.dom() =~= m0.walls.dom());
        assert(m1.vertices.dom() =~= m0.vertices.dom());
        assert forall|k: u64| #[trigger] m0.rooms.dom().contains(k) && !touches_room(p, k) implies m1.rooms[k] == m0.rooms[k] by {
            lemma_untouched_prefix(es, k);
        }
        assert forall|k: u64| #[trigger] m0.walls.dom().contains(k) && !touches_wall(p, k) implies m1.walls[k] == m0.walls[k] by {
            lemma_untouched_prefix(es, k);
        }
        assert forall|k: u64| #[trigger] m0.vertices.dom().contains(k) && !touches_vertex(p, k) implies m1.vertices[k]
            == m0.vertices[k] by {
            lemma_untouched_prefix(es, k);
        }
        lemma_undo_restores(m1, m0, p);
    }
}

/// Redoing a group of changes and then undoing it gives back the records it
/// started from, when each change's `before` value is what it started from.
pub proof fn law_undo_after_redo_restores(m0: GeometryMaps, es: Seq<UndoEntry<GeometryValue>>)
    requires
        forall|i: int| 0 <= i < es.len() ==> holds_value(m0, (#[trigger] es[i]).target, es[i].before),
    ensures
        undo_all(redo_all(m0, es), es) == m0,
{
    lemma_redo_agrees(m0, es);
    lemma_undo_restores(redo_all(m0, es), m0, es);
}

/// Undoing a group that was redone from records holding its `before` values,
/// and then redoing it, gives the records the first redo gave.
pub proof fn law_redo_after_undo_restores(m0: GeometryMaps, es: Seq<UndoEntry<GeometryValue>>)
    requires
        forall|i: int| 0 <= i < es.len() ==> holds_value(m0, (#[trigger] es[i]).target, es[i].before),
    ensures
        redo_all(undo_all(redo_all(m0, es), es), es) == redo_all(m0, es),
{
    law_undo_after_redo_restores(m0, es);
}


/// The records and the index after `n` undo commands of kind `cmd`, one after
/// the other, from `m` at `index`.
pub open spec fn repeat_cmd(m: GeometryMaps, groups: Seq<GroupView<GeometryValue>>, index: nat, cmd: UndoCmd, n: nat) -> (
    GeometryMaps,
    nat,
)
    decreases n,
{
    if n == 0 {
        (m, index)
    } else {
        let prev = repeat_cmd(m, groups, index, cmd, (n - 1) as nat);
        let out = undo_cmd_outcome(prev.1, groups.len(), cmd);
        (apply_steps(prev.0, groups, out.0), out.1)
    }
}

/// Applying one step undoes or redoes its group.
proof fn lemma_apply_one_step(m: GeometryMaps, groups: Seq<GroupView<GeometryValue>>, s: UndoStep)
    ensures
        apply_steps(m, groups, seq![s]) == if s.undo {
            undo_all(m, groups[s.group as int].0)
        } else {
            redo_all(m, groups[s.group as int].0)
        },
{
    assert(seq![s].drop_last() =~= Seq::<UndoStep>::empty());
    assert(seq![s].last() == s);
    assert(apply_steps(m, groups, Seq::<UndoStep>::empty()) == m);
}

/// `n` undo commands from `index` undo the groups below it one by one.
proof fn lemma_repeat_undo(m: GeometryMaps, groups: Seq<GroupView<GeometryValue>>, index: nat, n: nat)
    requires
        n <= index <= groups.len(),
    ensures
        repeat_cmd(m, groups, index, UndoCmd::Undo, n) == (
            apply_steps(m, groups, steps_between(index as int, index - n)),
            (index - n) as nat,
        ),
    decreases n,
{
    if n > 0 {
        lemma_repeat_undo(m, groups, index, (n - 1) as nat);
        let s = UndoStep { group: (index - n) as usize, undo: true };
        let prev = steps_between(index as int, index - n + 1);
        let cur = steps_between(index as int, index - n);
        lemma_apply_one_step(apply_steps(m, groups, prev), groups, s);
        assert(cur.drop_last() =~= prev);
        assert(cur.last() == s);
    } else {
        assert(steps_between(index as int, index as int) =~= Seq::<UndoStep>::empty());
    }
}

/// `n` redo commands from `index` redo the groups above it one by one.
proof fn lemma_repeat_redo(m: GeometryMaps, groups: Seq<GroupView<GeometryValue>>, index: nat, n: nat)
    requires
        index + n <= groups.len(),
    ensures
        repeat_cmd(m, groups, index, UndoCmd::Redo, n) == (
            apply_steps(m, groups, steps_between(index as int, (index + n) as int)),
            index + n,
        ),
    decreases n,
{
    if n > 0 {
        lemma_repeat_redo(m, groups, index, (n - 1) as nat);
        let s = UndoStep { group: (index + n - 1) as usize, undo: false };
        let prev = steps_between(index as int, index + n - 1);
        let cur = steps_between(index as int, (index + n) as int);
        lemma_apply_one_step(apply_steps(m, groups, prev), groups, s);
        assert(cur.drop_last() =~= prev);
        assert(cur.last() == s);
    } else {
        assert(steps_between(index as int, index as int) =~= Seq::<UndoStep>::empty());
    }
}

/// Setting the index gives the records and the index that as many single undo
/// commands (when the target lies below the index) or redo commands (when it
/// lies above) give, one after the other; the target is capped at the number
/// of groups.
pub proof fn law_set_index_is_repeated_cmds(
    m: GeometryMaps,
    groups: Seq<GroupView<GeometryValue>>,
    index: nat,
    target: usize,
)
    requires
        index <= groups.len(),
        groups.len() <= usize::MAX,
    ensures
        ({
            let out = undo_cmd_outcome(index, groups.len(), UndoCmd::SetIndex(target));
            let t = out.1;
            &&& t == if target < groups.len() { target as nat } else { groups.len() }
            &&& t <= index ==> (apply_steps(m, groups, out.0), t) == repeat_cmd(
                m,
                groups,
                index,
                UndoCmd::Undo,
                (index - t) as nat,
            )
            &&& t > index ==> (apply_steps(m, groups, out.0), t) == repeat_cmd(
                m,
                groups,
                index,
                UndoCmd::Redo,
                (t - index) as nat,
            )
        }),
{
    law_set_index_is_repeated_steps(index, groups.len(), target);
    let out = undo_cmd_outcome(index, groups.len(), UndoCmd::SetIndex(target));
    let t = out.1;
    if index == target {
        assert(steps_between(index as int, index as int) =~= out.0);
        lemma_repeat_undo(m, groups, index, 0);
    } else if t <= index {
        lemma_repeat_undo(m, groups, index, (index - t) as nat);
    } else {
        lemma_repeat_redo(m, groups, index, (t - index) as nat);
    }
}

/// An undo command followed by a redo command gives back the records and the
/// index, when the records are what redoing the group below the index gave
/// from records holding that group's `before` values.
pub proof fn law_undo_then_redo_cmds_restore(m0: GeometryMaps, groups: Seq<GroupView<GeometryValue>>, index: nat)
    requires
        0 < index <= groups.len(),
        groups.len() <= usize::MAX,
        forall|i: int|
            0 <= i < groups[index - 1].0.len() ==> holds_value(
                m0,
                (#[trigger] groups[index - 1].0[i]).target,
                groups[index - 1].0[i].before,
            ),
    ensures
        ({
            let m = redo_all(m0, groups[index - 1].0);
            let undone = undo_cmd_outcome(index, groups.len(), UndoCmd::Undo);
            let redone = undo_cmd_outcome(undone.1, groups.len(), UndoCmd::Redo);
            &&& redone.1 == index
            &&& apply_steps(apply_steps(m, groups, undone.0), groups, redone.0) == m
        }),
{
    let es = groups[index - 1].0;
    let m = redo_all(m0, es);
    let s1 = UndoStep { group: (index - 1) as usize, undo: true };
    let s2 = UndoStep { group: (index - 1) as usize, undo: false };
    lemma_apply_one_step(m, groups, s1);
    lemma_apply_one_step(undo_all(m, es), groups, s2);
    law_redo_after_undo_restores(m0, es);
    assert(undo_cmd_outcome(index, groups.len(), UndoCmd::Undo).0 == seq![s1]);
    assert(undo_cmd_outcome((index - 1) as nat, groups.len(), UndoCmd::Redo).0 == seq![s2]);
}


/// The change that moves vertex `v` of `g` by `d`.
pub open spec fn moved_vertex(g: WorldGeometry, v: VertexId, d: Vec2i) -> UndoEntry<GeometryValue> {
    let old = g.vertex(v.key());
    UndoEntry {
        target: EntryTarget::Vertex(v),
        before: GeometryValue::Vertex(old),
        after: GeometryValue::Vertex(
            VertexDef { position: Vec2i { x: (old.position.x + d.x) as i32, y: (old.position.y + d.y) as i32 }, ..old },
        ),
    }
}

/// The change that sets room `r` of `g` to `after`.
pub open spec fn changed_room(g: WorldGeometry, r: RoomId, after: RoomDef) -> UndoEntry<GeometryValue> {
    UndoEntry { target: EntryTarget::Room(r), before: GeometryValue::Room(g.room(r.key())), after: GeometryValue::Room(after) }
}

/// The change that sets wall `w` of `g` to `after`.
pub open spec fn changed_wall(g: WorldGeometry, w: WallId, after: WallDef) -> UndoEntry<GeometryValue> {
    UndoEntry { target: EntryTarget::Wall(w), before: GeometryValue::Wall(g.wall(w.key())), after: GeometryValue::Wall(after) }
}

/// The editor command only changes how a room or a wall looks, or where
/// vertices lie.
pub open spec fn recordable(cmd: GeometryEditCmd) -> bool {
    match cmd {
        GeometryEditCmd::TranslateItem(item, _) => item is Vertex || item is Wall || item is Room,
        GeometryEditCmd::SetCeilingColor(..) => true,
        GeometryEditCmd::SetCeilingHeight(..) => true,
        GeometryEditCmd::SetFloorColor(..) => true,
        GeometryEditCmd::SetWallColor(..) => true,
        GeometryEditCmd::SetHorizontalWallOffset(..) => true,
        GeometryEditCmd::SetVerticalWallOffset(..) => true,
        _ => false,
    }
}

/// The changes the editor records for `cmd` on `g`: a moved vertex; both ends
/// of a moved wall, in order; every vertex a wall of a moved room starts at, in
/// loop order; or the one room or wall whose looks change.
pub open spec fn edit_entries(g: WorldGeometry, cmd: GeometryEditCmd) -> Seq<UndoEntry<GeometryValue>> {
    match cmd {
        GeometryEditCmd::TranslateItem(item, d) => match item {
            Item::Vertex(v) => seq![moved_vertex(g, v, d)],
            Item::Wall(w) => seq![
                moved_vertex(g, g.wall(w.key()).source_vertex, d),
                moved_vertex(g, g.wall(g.next_of(w.key())).source_vertex, d),
            ],
            Item::Room(r) => Seq::new(
                g.room_loop(r.key()).len(),
                |i: int| moved_vertex(g, g.wall(g.room_loop(r.key())[i]).source_vertex, d),
            ),
            _ => Seq::empty(),
        },
        GeometryEditCmd::SetCeilingColor(r, c) => seq![changed_room(g, r, RoomDef { ceiling_color: c, ..g.room(r.key()) })],
        GeometryEditCmd::SetCeilingHeight(r, h) => seq![changed_room(g, r, RoomDef { height: h, ..g.room(r.key()) })],
        GeometryEditCmd::SetFloorColor(r, c) => seq![changed_room(g, r, RoomDef { floor_color: c, ..g.room(r.key()) })],
        GeometryEditCmd::SetWallColor(w, c) => seq![changed_wall(g, w, WallDef { color: c, ..g.wall(w.key()) })],
        GeometryEditCmd::SetHorizontalWallOffset(w, o) => seq![
            changed_wall(g, w, WallDef { horizontal_offset: o, ..g.wall(w.key()) }),
        ],
        GeometryEditCmd::SetVerticalWallOffset(w, o) => seq![
            changed_wall(g, w, WallDef { vertical_offset: o, ..g.wall(w.key()) }),
        ],
        _ => Seq::empty(),
    }
}

/// The element `cmd` names is not in `g`.
pub open spec fn edit_target_missing(g: WorldGeometry, cmd: GeometryEditCmd) -> bool {
    match cmd {
        GeometryEditCmd::TranslateItem(item, _) => match item {
            Item::Vertex(v) => !g.has_vertex(v.key()),
            _ => false,
        },
        GeometryEditCmd::SetCeilingColor(r, _) => !g.has_room(r.key()),
        GeometryEditCmd::SetCeilingHeight(r, _) => !g.has_room(r.key()),
        GeometryEditCmd::SetFloorColor(r, _) => !g.has_room(r.key()),
        GeometryEditCmd::SetWallColor(w, _) => !g.has_wall(w.key()),
        GeometryEditCmd::SetHorizontalWallOffset(w, _) => !g.has_wall(w.key()),
        GeometryEditCmd::SetVerticalWallOffset(w, _) => !g.has_wall(w.key()),
        _ => false,
    }
}

/// Adding a change that fits to changes that fit gives changes that fit.
proof fn lemma_push_fits(g: WorldGeometry, es: Seq<UndoEntry<GeometryValue>>, e: UndoEntry<GeometryValue>)
    requires
        changes_fit(g, es),
        value_fits(g, e.target, e.before) && value_fits(g, e.target, e.after),
    ensures
        changes_fit(g, push_entry(es, e)),
{
    let r = push_entry(es, e);
    assert forall|i: int| 0 <= i < r.len() implies value_fits(g, (#[trigger] r[i]).target, r[i].before) && value_fits(
        g,
        r[i].target,
        r[i].after,
    ) by {
        if i < es.len() - 1 || (i == es.len() - 1 && !(es.len() > 0 && es.last().target == e.target)) {
            assert(r[i] == es[i]);
        } else if i == es.len() - 1 {
            assert(es.last() == es[i]);
        }
    }
}

/// Changes that fit, added to changes that fit, fit.
proof fn lemma_merge_fits(g: WorldGeometry, a: Seq<UndoEntry<GeometryValue>>, b: Seq<UndoEntry<GeometryValue>>)
    requires
        changes_fit(g, a),
        changes_fit(g, b),
    ensures
        changes_fit(g, merge_entries(a, b)),
    decreases b.len(),
{
    if b.len() > 0 {
        let p = b.drop_last();
        assert forall|i: int| 0 <= i < p.len() implies value_fits(g, (#[trigger] p[i]).target, p[i].before) && value_fits(
            g,
            p[i].target,
            p[i].after,
        ) by {
            assert(p[i] == b[i]);
        }
        lemma_merge_fits(g, a, p);
        assert(b.last() == b[b.len() - 1]);
        lemma_push_fits(g, merge_entries(a, p), b.last());
    }
}

/// Adding the changes one at a time, the first `i + 1` are the first `i` and then
/// the next.
proof fn lemma_merge_step(a: Seq<UndoEntry<GeometryValue>>, b: Seq<UndoEntry<GeometryValue>>, i: int)
    requires
        0 <= i < b.len(),
    ensures
        merge_entries(a, b.take(i + 1)) == push_entry(merge_entries(a, b.take(i)), b[i]),
{
    assert(b.take(i + 1).drop_last() =~= b.take(i));
    assert(b.take(i + 1).last() == b[i]);
}

/// Records in `group` the changes that the editor command `cmd` makes to
/// `geometry`, one for each room, wall or vertex it touches with its value
/// before and after, as the editor does before submitting the group with
/// [`submit_group`]. A vertex, room or wall that does not exist is refused and
/// nothing is recorded.
pub fn record_edit(group: &mut UndoGroup<GeometryValue>, geometry: &WorldGeometry, cmd: GeometryEditCmd) -> (res: Result<
    (),
    GeometryError,
>)
    requires
        geometry.wf(),
        edit_allowed(*geometry, cmd),
        recordable(cmd),
    ensures
        res is Err <==> edit_target_missing(*geometry, cmd),
        res is Err ==> res == Err::<(), GeometryError>(GeometryError::InvalidId) && final(group).view() == old(group).view(),
        res is Ok ==> final(group).view() == (merge_entries(old(group).view().0, edit_entries(*geometry, cmd)), old(
            group,
        ).view().1),
        res is Ok ==> changes_fit(*geometry, edit_entries(*geometry, cmd)),
        changes_fit(*geometry, old(group).view().0) ==> changes_fit(*geometry, final(group).view().0),
{
    let ghost g = *geometry;
    let ghost old_entries = group.view().0;
    let ghost es = edit_entries(g, cmd);
    proof {
        geometry.lemma_wf_basics();
        assert(merge_entries(old_entries, Seq::<UndoEntry<GeometryValue>>::empty()) == old_entries);
    }
    let res = match cmd {
        GeometryEditCmd::TranslateItem(item, d) => match item {
            Item::Vertex(v) => {
                if !v.is_valid(geometry) {
                    return Err(GeometryError::InvalidId);
                }
                let before = v.get(geometry);
                let after = VertexDef { position: Vec2i::new(before.position.x + d.x, before.position.y + d.y), ..before };
                let r = group.update_vertex(geometry, v, after);
                proof {
                    lemma_merge_step(old_entries, es, 0);
                    assert(es.take(1) =~= es);
                    assert(es.take(0) =~= Seq::<UndoEntry<GeometryValue>>::empty());
                }
                r
            },
            Item::Wall(w) => {
                proof {
                    g.lemma_wall_ok(w.key());
                    g.lemma_wall_ok(g.next_of(w.key()));
                }
                let a = w.vertex(geometry);
                let b = w.next_vertex(geometry);
                let before_a = a.get(geometry);
                let after_a = VertexDef { position: Vec2i::new(before_a.position.x + d.x, before_a.position.y + d.y), ..before_a };
                let _ = group.update_vertex(geometry, a, after_a);
                let before_b = b.get(geometry);
                let after_b = VertexDef { position: Vec2i::new(before_b.position.x + d.x, before_b.position.y + d.y), ..before_b };
                let _ = group.update_vertex(geometry, b, after_b);
                proof {
                    lemma_merge_step(old_entries, es, 0);
                    lemma_merge_step(old_entries, es, 1);
                    assert(es.take(2) =~= es);
                    assert(es.take(0) =~= Seq::<UndoEntry<GeometryValue>>::empty());
                }
                Ok(())
            },
            Item::Room(room) => {
                let vertices = geometry.room_vertices(room);
                let ghost s = g.room_loop(room.key());
                proof {
                    g.lemma_room_ok(room.key());
                    assert(es.take(0) =~= Seq::<UndoEntry<GeometryValue>>::empty());
                }
                let mut i: usize = 0;
                while i < vertices.len()
                    invariant
                        g == *geometry,
                        g.wf(),
                        g.room_ok(room.key()),
                        s == g.room_loop(room.key()),
                        es == edit_entries(g, cmd),
                        cmd == GeometryEditCmd::TranslateItem(Item::Room(room), d),
                        edit_allowed(g, cmd),
                        vertices@.len() == s.len(),
                        forall|k: int| 0 <= k < vertices@.len() ==> #[trigger] vertices@[k] == g.wall(s[k]).source_vertex,
                        0 <= i <= vertices@.len(),
                        group.view() == (merge_entries(old_entries, es.take(i as int)), old(group).view().1),
                    decreases vertices@.len() - i,
                {
                    let v = vertices[i];
                    proof {
                        assert(g.has_wall(s[i as int]));
                        g.lemma_wall_ok(s[i as int]);
                        assert(crate::editing::starts_wall_of(g, s, v.key()));
                        lemma_merge_step(old_entries, es, i as int);
                    }
                    let before = v.get(geometry);
                    let after = VertexDef { position: Vec2i::new(before.position.x + d.x, before.position.y + d.y), ..before };
                    let _ = group.update_vertex(geometry, v, after);
                    i = i + 1;
                }
                proof {
                    assert(es.take(i as int) =~= es);
                }
                Ok(())
            },
            _ => Ok(()),
        },
        GeometryEditCmd::SetCeilingColor(room, c) => {
            if !room.is_valid(geometry) {
                return Err(GeometryError::InvalidId);
            }
            let d = room.get(geometry);
            let r = group.update_room(geometry, room, RoomDef { ceiling_color: c, ..d });
            proof {
                lemma_merge_step(old_entries, es, 0);
                assert(es.take(1) =~= es);
                assert(es.take(0) =~= Seq::<UndoEntry<GeometryValue>>::empty());
            }
            r
        },
        GeometryEditCmd::SetCeilingHeight(room, h) => {
            if !room.is_valid(geometry) {
                return Err(GeometryError::InvalidId);
            }
            let d = room.get(geometry);
            let r = group.update_room(geometry, room, RoomDef { height: h, ..d });
            proof {
                lemma_merge_step(old_entries, es, 0);
                assert(es.take(1) =~= es);
                assert(es.take(0) =~= Seq::<UndoEntry<GeometryValue>>::empty());
            }
            r
        },
        GeometryEditCmd::SetFloorColor(room, c) => {
            if !room.is_valid(geometry) {
                return Err(GeometryError::InvalidId);
            }
            let d = room.get(geometry);
            let r = group.update_room(geometry, room, RoomDef { floor_color: c, ..d });
            proof {
                lemma_merge_step(old_entries, es, 0);
                assert(es.take(1) =~= es);
                assert(es.take(0) =~= Seq::<UndoEntry<GeometryValue>>::empty());
            }
            r
        },
        GeometryEditCmd::SetWallColor(wall, c) => {
            if !wall.is_valid(geometry) {
                return Err(GeometryError::InvalidId);
            }
            let d = wall.get(geometry);
            let r = group.update_wall(geometry, wall, WallDef { color: c, ..d });
            proof {
                lemma_merge_step(old_entries, es, 0);
                assert(es.take(1) =~= es);
                assert(es.take(0) =~= Seq::<UndoEntry<GeometryValue>>::empty());
            }
            r
        },
        GeometryEditCmd::SetHorizontalWallOffset(wall, o) => {
            if !wall.is_valid(geometry) {
                return Err(GeometryError::InvalidId);
            }
            let d = wall.get(geometry);
            let r = group.update_wall(geometry, wall, WallDef { horizontal_offset: o, ..d });
            proof {
                lemma_merge_step(old_entries, es, 0);
                assert(es.take(1) =~= es);
                assert(es.take(0) =~= Seq::<UndoEntry<GeometryValue>>::empty());
            }
            r
        },
        GeometryEditCmd::SetVerticalWallOffset(wall, o) => {
            if !wall.is_valid(geometry) {
                return Err(GeometryError::InvalidId);
            }
            let d = wall.get(geometry);
            let r = group.update_wall(geometry, wall, WallDef { vertical_offset: o, ..d });
            proof {
                lemma_merge_step(old_entries, es, 0);
                assert(es.take(1) =~= es);
                assert(es.take(0) =~= Seq::<UndoEntry<GeometryValue>>::empty());
            }
            r
        },
        _ => Ok(()),
    };
    proof {
        assert forall|i: int| 0 <= i < es.len() implies value_fits(g, (#[trigger] es[i]).target, es[i].before) && value_fits(
            g,
            es[i].target,
            es[i].after,
        ) by {
            if let GeometryEditCmd::TranslateItem(Item::Wall(w), _) = cmd {
                g.lemma_wall_ok(w.key());
                g.lemma_wall_ok(g.next_of(w.key()));
            }
            if let GeometryEditCmd::TranslateItem(Item::Room(room), _) = cmd {
                g.lemma_room_ok(room.key());
                g.lemma_wall_ok(g.room_loop(room.key())[i]);
            }
        }
        if changes_fit(g, old_entries) {
            lemma_merge_fits(g, old_entries, es);
        }
    }
    res
}


/// Vertex `u` of `g` moved by `d`.
pub open spec fn moved_def(g: WorldGeometry, u: u64, d: Vec2i) -> VertexDef {
    VertexDef {
        position: Vec2i { x: (g.vertex(u).position.x + d.x) as i32, y: (g.vertex(u).position.y + d.y) as i32 },
        ..g.vertex(u)
    }
}

/// Redoing one change sets its target.
pub(crate) proof fn lemma_redo_one(m: GeometryMaps, e: UndoEntry<GeometryValue>)
    ensures
        redo_all(m, seq![e]) == set_value(m, e.target, e.after),
{
    assert(seq![e].drop_last() =~= Seq::<UndoEntry<GeometryValue>>::empty());
    assert(seq![e].last() == e);
    assert(redo_all(m, Seq::<UndoEntry<GeometryValue>>::empty()) == m);
}

/// Redoing the first `i` changes of a recorded room move moves the vertices
/// that the first `i` walls of the room start at, and nothing else.
pub(crate) proof fn lemma_redo_room_move(g: WorldGeometry, r: RoomId, d: Vec2i, i: int)
    requires
        g.wf(),
        g.has_room(r.key()),
        0 <= i <= g.room_loop(r.key()).len(),
    ensures
        ({
            let s = g.room_loop(r.key());
            let es = edit_entries(g, GeometryEditCmd::TranslateItem(Item::Room(r), d));
            let m = redo_all(g.maps(), es.take(i));
            &&& m.rooms == g.room_map()
            &&& m.walls == g.wall_map()
            &&& m.vertices.dom() == g.vertex_map().dom()
            &&& forall|u: u64| #[trigger] g.has_vertex(u) ==> m.vertices[u] == if starts_wall_of(g, s.take(i), u) {
                moved_def(g, u, d)
            } else {
                g.vertex(u)
            }
        }),
    decreases i,
{
    let s = g.room_loop(r.key());
    let es = edit_entries(g, GeometryEditCmd::TranslateItem(Item::Room(r), d));
    if i == 0 {
        assert(es.take(0) =~= Seq::<UndoEntry<GeometryValue>>::empty());
        assert forall|u: u64| #[trigger] g.has_vertex(u) implies !starts_wall_of(g, s.take(0), u) by {
            if starts_wall_of(g, s.take(0), u) {
                let j = choose|j: int| 0 <= j < s.take(0).len() && #[trigger] g.wall(s.take(0)[j]).source_vertex.key() == u;
            }
        }
    } else {
        lemma_redo_room_move(g, r, d, i - 1);
        g.lemma_room_ok(r.key());
        assert(g.has_wall(s[i - 1]));
        g.lemma_wall_ok(s[i - 1]);
        let k = g.wall(s[i - 1]).source_vertex.key();
        assert(g.has_vertex(k));
        let prev = redo_all(g.maps(), es.take(i - 1));
        assert(es.take(i).drop_last() =~= es.take(i - 1));
        assert(es.take(i).last() == es[i - 1]);
        let m = redo_all(g.maps(), es.take(i));
        assert(m == set_value(prev, es[i - 1].target, es[i - 1].after));
        assert(m.vertices == prev.vertices.insert(k, moved_def(g, k, d)));
        assert(m.vertices.dom() =~= g.vertex_map().dom());
        assert forall|u: u64| #[trigger] g.has_vertex(u) implies m.vertices[u] == if starts_wall_of(g, s.take(i), u) {
            moved_def(g, u, d)
        } else {
            g.vertex(u)
        } by {
            crate::editing::lemma_starts_one_more(g, s, i - 1, u);
        }
    }
}


/// The value is of the kind of the element the target names.
pub open spec fn kind_matches(t: EntryTarget, v: GeometryValue) -> bool {
    ||| (t is Room && v is Room)
    ||| (t is Wall && v is Wall)
    ||| (t is Vertex && v is Vertex)
}

/// Every change of `es` sets a value of its target's kind.
pub open spec fn kinds_match(es: Seq<UndoEntry<GeometryValue>>) -> bool {
    forall|i: int| 0 <= i < es.len() ==> kind_matches((#[trigger] es[i]).target, es[i].after)
}

/// Adding a change to a group and then redoing it is redoing the group and
/// then the change.
proof fn lemma_redo_push(m: GeometryMaps, a: Seq<UndoEntry<GeometryValue>>, e: UndoEntry<GeometryValue>)
    requires
        kinds_match(a),
        kind_matches(e.target, e.after),
    ensures
        redo_all(m, push_entry(a, e)) == set_value(redo_all(m, a), e.target, e.after),
        kinds_match(push_entry(a, e)),
{
    let p = push_entry(a, e);
    if a.len() > 0 && a.last().target == e.target {
        let last = a.last();
        assert(p.drop_last() =~= a.drop_last());
        assert(a.last() == a[a.len() - 1]);
        assert(kind_matches(last.target, last.after));
        let r0 = redo_all(m, a.drop_last());
        assert(redo_all(m, a) == set_value(r0, last.target, last.after));
        assert(set_value(set_value(r0, e.target, last.after), e.target, e.after) == set_value(r0, e.target, e.after)) by {
            match (e.target, e.after) {
                (EntryTarget::Room(r), GeometryValue::Room(d)) => {
                    assert(r0.rooms.insert(r.key(), last.after->Room_0).insert(r.key(), d) =~= r0.rooms.insert(r.key(), d));
                },
                (EntryTarget::Wall(w), GeometryValue::Wall(d)) => {
                    assert(r0.walls.insert(w.key(), last.after->Wall_0).insert(w.key(), d) =~= r0.walls.insert(w.key(), d));
                },
                (EntryTarget::Vertex(x), GeometryValue::Vertex(d)) => {
                    assert(r0.vertices.insert(x.key(), last.after->Vertex_0).insert(x.key(), d) =~= r0.vertices.insert(
                        x.key(),
                        d,
                    ));
                },
                _ => {},
            }
        }
        assert forall|i: int| 0 <= i < p.len() implies kind_matches((#[trigger] p[i]).target, p[i].after) by {
            if i < p.len() - 1 {
                assert(p[i] == a[i]);
            }
        }
    } else {
        assert(p.drop_last() =~= a);
        assert forall|i: int| 0 <= i < p.len() implies kind_matches((#[trigger] p[i]).target, p[i].after) by {
            if i < a.len() {
                assert(p[i] == a[i]);
            }
        }
    }
}

/// Merging changes into a group keeps what redoing them does: redoing the
/// merged group is redoing the group and then the changes, in order.
pub proof fn law_merged_changes_redo_in_order(m: GeometryMaps, a: Seq<UndoEntry<GeometryValue>>, es: Seq<UndoEntry<GeometryValue>>)
    requires
        kinds_match(a),
        kinds_match(es),
    ensures
        redo_all(m, merge_entries(a, es)) == redo_all(redo_all(m, a), es),
        kinds_match(merge_entries(a, es)),
    decreases es.len(),
{
    if es.len() == 0 {
        assert(redo_all(redo_all(m, a), es) == redo_all(m, a));
    } else {
        let p = es.drop_last();
        assert forall|i: int| 0 <= i < p.len() implies kind_matches((#[trigger] p[i]).target, p[i].after) by {
            assert(p[i] == es[i]);
        }
        law_merged_changes_redo_in_order(m, a, p);
        assert(es.last() == es[es.len() - 1]);
        lemma_redo_push(m, merge_entries(a, p), es.last());
    }
}

/// The changes recorded for an editor command set values of their targets'
/// kinds.
proof fn lemma_edit_entries_kinds(g: WorldGeometry, cmd: GeometryEditCmd)
    ensures
        kinds_match(edit_entries(g, cmd)),
{
}


/// Recording an editor command into a new group and redoing the group, as
/// submitting it does, leaves the records that redoing the command's changes
/// leaves, which [`crate::editing::handle_geometry_edit_cmd`] states is what
/// the direct edit leaves.
pub proof fn law_recorded_edit_is_the_edit(m: GeometryMaps, g: WorldGeometry, cmd: GeometryEditCmd)
    ensures
        redo_all(m, merge_entries(Seq::<UndoEntry<GeometryValue>>::empty(), edit_entries(g, cmd))) == redo_all(
            m,
            edit_entries(g, cmd),
        ),
{
    lemma_edit_entries_kinds(g, cmd);
    law_merged_changes_redo_in_order(m, Seq::<UndoEntry<GeometryValue>>::empty(), edit_entries(g, cmd));
    assert(redo_all(m, Seq::<UndoEntry<GeometryValue>>::empty()) == m);
}

} // verus!
