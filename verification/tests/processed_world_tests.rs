use playbox::defs::Vec2i;
use playbox::geometry::WorldGeometry;
use playbox::ids::RoomId;
use playbox::message_bus::MessageBus;
use playbox::processed_world::{ProcessedWorld, WorldChangedEvent};
use playbox::validation::validate_geometry;

fn concave_square() -> WorldGeometry {
    let mut geometry = WorldGeometry::new_square(16);
    let first_wall = geometry.first_room().first_wall(&geometry);
    geometry.split_wall(first_wall, Vec2i::new(-4, 0));
    geometry
}

#[test]
fn processed_world_keeps_convex_geometry() {
    let source = WorldGeometry::new_square(16);
    let room = source.first_room();
    let mut bus: MessageBus<WorldChangedEvent> = MessageBus::new();
    let objects = vec![room, room];
    let world = ProcessedWorld::new(&source, &objects, &mut bus);

    assert!(world.processing_result().is_ok());
    assert_eq!(world.geometry().num_rooms(), 1);
    assert_eq!(world.geometry().num_walls(), 4);
    assert_eq!(world.to_source_room(room), room);
    assert_eq!(world.to_processed_rooms(room), vec![room]);
    assert_eq!(world.object_indices_for_room(room), vec![0, 1]);
    let info = world.room_info(room).expect("room has info");
    assert!(info.connecting_walls.is_empty());
}

#[test]
fn processed_world_cuts_concave_rooms_and_maps_back() {
    let source = concave_square();
    let room = source.first_room();
    let mut bus: MessageBus<WorldChangedEvent> = MessageBus::new();
    let world = ProcessedWorld::new(&source, &vec![room], &mut bus);

    assert!(world.processing_result().is_ok());
    validate_geometry(world.geometry()).expect("processed geometry is valid");
    assert_eq!(world.geometry().num_rooms(), 2);
    assert_eq!(world.geometry().num_walls(), 7);
    // The source geometry is left as it was.
    assert_eq!(source.num_rooms(), 1);
    assert_eq!(source.num_walls(), 5);

    let pieces = world.to_processed_rooms(room);
    assert_eq!(pieces.len(), 2);
    assert_eq!(*pieces.last().unwrap(), room);
    for &piece in pieces.iter() {
        assert_eq!(world.to_source_room(piece), room);
        let info = world.room_info(piece).expect("every piece has info");
        assert_eq!(info.connecting_walls.len(), 1);
    }
    // Objects stay in the room they were placed in.
    assert_eq!(world.object_indices_for_room(room), vec![0]);
    assert_eq!(world.object_indices_for_room(pieces[0]), Vec::<usize>::new());
}

#[test]
fn processed_world_rebuilds_only_after_change_event() {
    let first = WorldGeometry::new_square(16);
    let second = concave_square();
    let mut bus: MessageBus<WorldChangedEvent> = MessageBus::new();
    let mut world = ProcessedWorld::new(&first, &Vec::<RoomId>::new(), &mut bus);

    world.update(&second, &Vec::new(), &mut bus);
    assert_eq!(world.geometry().num_rooms(), 1);

    bus.emit(WorldChangedEvent);
    world.update(&second, &Vec::new(), &mut bus);
    assert_eq!(world.geometry().num_rooms(), 2);

    // The event was read: a further update keeps the state.
    world.update(&first, &Vec::new(), &mut bus);
    assert_eq!(world.geometry().num_rooms(), 2);
}

#[test]
fn processed_world_has_no_info_for_unknown_room() {
    let source = WorldGeometry::new_square(16);
    let other = concave_square();
    let mut bus: MessageBus<WorldChangedEvent> = MessageBus::new();
    let world = ProcessedWorld::new(&other, &Vec::new(), &mut bus);
    let pieces = world.to_processed_rooms(other.first_room());
    let cut = pieces[0];
    let plain = ProcessedWorld::new(&source, &Vec::new(), &mut bus);
    assert_ne!(cut, source.first_room());
    assert!(plain.room_info(cut).is_none());
    assert!(plain.object_indices_for_room(cut).is_empty());
}
