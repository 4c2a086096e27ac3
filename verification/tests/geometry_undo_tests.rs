use playbox::defs::{Color, Vec2i};
use playbox::geometry::{GeometryError, WorldGeometry};
use playbox::geometry_undo::{apply_undo_cmd, record_edit, submit_group, GeometryValue};
use playbox::editing::{handle_geometry_edit_cmd, GeometryEditCmd};
use playbox::editor::Item;
use playbox::ids::{RoomId, WallId};
use playbox::message_bus::MessageBus;
use playbox::processed_world::WorldChangedEvent;
use playbox::undo::{UndoCmd, UndoGroup, UndoStack, UndoStep};

#[test]
fn recorded_geometry_changes_apply_undo_and_redo() {
    let mut geometry = WorldGeometry::new_square(16);
    let room = geometry.first_room();
    let wall = room.first_wall(&geometry);
    let vertex = wall.vertex(&geometry);
    let red = Color { r: 200, g: 0, b: 0, a: 255 };
    let old_wall = wall.get(&geometry);
    let old_room = room.get(&geometry);
    let old_position = vertex.position(&geometry);

    let mut group: UndoGroup<GeometryValue> = UndoGroup::new();
    group.describe_as("paint".to_string());
    let mut wall_after = old_wall;
    wall_after.color = red;
    // A change of links is refused and records nothing.
    let mut relinked = wall_after;
    relinked.next_wall = WallId::null();
    assert_eq!(group.update_wall(&geometry, wall, relinked), Err(GeometryError::LinksChanged));
    assert_eq!(group.changes().len(), 0);
    group.update_wall(&geometry, wall, wall_after).unwrap();
    let mut room_after = old_room;
    room_after.height = 99;
    let mut moved_first = room_after;
    moved_first.first_wall = wall.next_wall(&geometry);
    assert_eq!(group.update_room(&geometry, room, moved_first), Err(GeometryError::LinksChanged));
    group.update_room(&geometry, room, room_after).unwrap();
    let mut vertex_after = vertex.get(&geometry);
    vertex_after.position = Vec2i::new(-20, -20);
    group.update_vertex(&geometry, vertex, vertex_after).unwrap();
    assert_eq!(group.update_room(&geometry, RoomId::null(), room_after), Err(GeometryError::InvalidId));
    assert_eq!(group.changes().len(), 3);

    let mut stack: UndoStack<GeometryValue> = UndoStack::new();
    let mut bus: MessageBus<WorldChangedEvent> = MessageBus::new();
    let changed = bus.subscribe();
    submit_group(&mut stack, &mut geometry, &mut bus, group, false);
    assert_eq!(stack.len(), 1);
    assert_eq!(bus.peek_count(&changed), 3);
    assert_eq!(wall.get(&geometry).color, red);
    assert_eq!(wall.get(&geometry).next_wall, old_wall.next_wall);
    assert_eq!(room.get(&geometry).height, 99);
    assert_eq!(vertex.position(&geometry), Vec2i::new(-20, -20));

    let steps = apply_undo_cmd(&mut stack, &mut geometry, &mut bus, UndoCmd::Undo);
    assert_eq!(steps, vec![UndoStep { group: 0, undo: true }]);
    assert_eq!(bus.peek_count(&changed), 6);
    assert_eq!(wall.get(&geometry).color, old_wall.color);
    assert_eq!(room.get(&geometry).height, old_room.height);
    assert_eq!(vertex.position(&geometry), old_position);

    let steps = apply_undo_cmd(&mut stack, &mut geometry, &mut bus, UndoCmd::Redo);
    assert_eq!(steps, vec![UndoStep { group: 0, undo: false }]);
    assert_eq!(bus.peek_count(&changed), 9);
    // Nothing is left to redo: no change, no message.
    assert_eq!(apply_undo_cmd(&mut stack, &mut geometry, &mut bus, UndoCmd::Redo), vec![]);
    assert_eq!(bus.peek_count(&changed), 9);
    assert_eq!(wall.get(&geometry).color, red);
    assert_eq!(room.get(&geometry).height, 99);
    assert!(playbox::validation::validate_geometry(&geometry).is_ok());
}

#[test]
fn submitting_an_empty_group_records_nothing() {
    let mut geometry = WorldGeometry::new_square(16);
    let mut stack: UndoStack<GeometryValue> = UndoStack::new();
    let mut bus: MessageBus<WorldChangedEvent> = MessageBus::new();
    let changed = bus.subscribe();
    submit_group(&mut stack, &mut geometry, &mut bus, UndoGroup::new(), false);
    assert_eq!(stack.len(), 0);
    assert_eq!(apply_undo_cmd(&mut stack, &mut geometry, &mut bus, UndoCmd::Undo), vec![]);
    assert_eq!(bus.peek_count(&changed), 0);
}

#[test]
fn set_index_moves_the_geometry_group_by_group() {
    let mut geometry = WorldGeometry::new_square(16);
    let room = geometry.first_room();
    let mut stack: UndoStack<GeometryValue> = UndoStack::new();
    let mut bus: MessageBus<WorldChangedEvent> = MessageBus::new();
    let changed = bus.subscribe();
    for height in [10, 20, 30] {
        let mut group: UndoGroup<GeometryValue> = UndoGroup::new();
        let mut after = room.get(&geometry);
        after.height = height;
        group.update_room(&geometry, room, after).unwrap();
        submit_group(&mut stack, &mut geometry, &mut bus, group, false);
    }
    assert_eq!(stack.len(), 3);
    assert_eq!(room.get(&geometry).height, 30);
    let steps = apply_undo_cmd(&mut stack, &mut geometry, &mut bus, UndoCmd::SetIndex(1));
    assert_eq!(steps, vec![UndoStep { group: 2, undo: true }, UndoStep { group: 1, undo: true }]);
    assert_eq!(room.get(&geometry).height, 10);
    assert_eq!(stack.index(), 1);
    assert_eq!(bus.peek_count(&changed), 5);
    let steps = apply_undo_cmd(&mut stack, &mut geometry, &mut bus, UndoCmd::SetIndex(99));
    assert_eq!(steps, vec![UndoStep { group: 1, undo: false }, UndoStep { group: 2, undo: false }]);
    assert_eq!(room.get(&geometry).height, 30);
    assert_eq!(stack.index(), 3);
}

#[test]
fn recorded_wall_move_matches_the_direct_edit_and_undoes() {
    let mut geometry = WorldGeometry::new_square(16);
    let mut direct = geometry.duplicate();
    let room = geometry.first_room();
    let wall = room.first_wall(&geometry);
    let a = wall.vertex(&geometry);
    let b = wall.next_vertex(&geometry);
    let old_a = a.position(&geometry);
    let old_b = b.position(&geometry);
    let cmd = GeometryEditCmd::TranslateItem(Item::Wall(wall), Vec2i::new(1, 0));

    let mut group: UndoGroup<GeometryValue> = UndoGroup::new();
    group.describe_as("Move wall".to_string());
    record_edit(&mut group, &geometry, cmd.clone()).unwrap();
    assert_eq!(group.changes().len(), 2);
    let mut stack: UndoStack<GeometryValue> = UndoStack::new();
    let mut bus: MessageBus<WorldChangedEvent> = MessageBus::new();
    let changed = bus.subscribe();
    submit_group(&mut stack, &mut geometry, &mut bus, group, false);
    handle_geometry_edit_cmd(&mut direct, cmd).unwrap();

    assert_eq!(a.position(&geometry), Vec2i::new(old_a.x + 1, old_a.y));
    assert_eq!(b.position(&geometry), Vec2i::new(old_b.x + 1, old_b.y));
    assert_eq!(a.position(&geometry), a.position(&direct));
    assert_eq!(b.position(&geometry), b.position(&direct));
    assert_eq!((stack.len(), stack.index()), (1, 1));
    assert_eq!(stack.describe(0), "Move wall");
    assert_eq!(bus.peek_count(&changed), 2);

    apply_undo_cmd(&mut stack, &mut geometry, &mut bus, UndoCmd::Undo);
    assert_eq!(a.position(&geometry), old_a);
    assert_eq!(b.position(&geometry), old_b);
}

#[test]
fn recording_an_edit_of_a_missing_room_is_refused() {
    let geometry = WorldGeometry::new_square(16);
    let mut group: UndoGroup<GeometryValue> = UndoGroup::new();
    let cmd = GeometryEditCmd::SetCeilingHeight(RoomId::null(), 3);
    assert_eq!(record_edit(&mut group, &geometry, cmd), Err(GeometryError::InvalidId));
    assert_eq!(group.changes().len(), 0);
}
