use playbox::defs::{Color, Vec2i};
use playbox::geometry::{GeometryError, WorldGeometry};
use playbox::validation::{validate_geometry, validate_ids, validate_room_convex, validate_room_loop, validate_vertex};

#[test]
fn basic_geometry() {
    let geometry = WorldGeometry::new_square(16);
    assert!(validate_geometry(&geometry).is_ok());

    let first_room = geometry.first_room();
    let num_walls = geometry.room_walls(first_room).len();
    assert_eq!(num_walls, 4);
}

#[test]
fn split_wall() {
    let mut geometry = WorldGeometry::new_square(16);

    let first_room = geometry.first_room();
    let first_wall = first_room.first_wall(&geometry);

    // The first wall runs from (-8, -8) to (-8, 8); its center is (-8, 0), and
    // one and a half times that is (-12, 0).
    let start = first_wall.vertex(&geometry).position(&geometry);
    let end = first_wall.next_vertex(&geometry).position(&geometry);
    assert_eq!(start, Vec2i::new(-8, -8));
    assert_eq!(end, Vec2i::new(-8, 8));
    let new_position = Vec2i::new(-12, 0);
    let new_wall = geometry.split_wall(first_wall, new_position);

    assert!(validate_geometry(&geometry).is_ok());

    let num_walls = geometry.room_walls(first_room).len();
    assert_eq!(num_walls, 5);

    let num_walls = geometry.room_walls(first_room).iter().rev().count();
    assert_eq!(num_walls, 5);

    assert_eq!(new_wall.prev_wall(&geometry), first_wall);
    assert_eq!(new_wall, first_wall.next_wall(&geometry));
}

#[test]
fn new_square_corners() {
    let geometry = WorldGeometry::new_square(10);
    let room = geometry.first_room();
    let corners: Vec<Vec2i> = geometry
        .room_vertices(room)
        .iter()
        .map(|v| v.position(&geometry))
        .collect();
    assert_eq!(
        corners,
        vec![Vec2i::new(-5, -5), Vec2i::new(-5, 5), Vec2i::new(5, 5), Vec2i::new(5, -5)]
    );
    assert_eq!(geometry.num_rooms(), 1);
    assert_eq!(geometry.num_walls(), 4);
    assert_eq!(geometry.num_vertices(), 4);
}

#[test]
fn split_wall_places_new_vertex() {
    let mut geometry = WorldGeometry::new_square(16);
    let room = geometry.first_room();
    let wall = room.first_wall(&geometry);
    let old_next = wall.next_wall(&geometry);
    let new_wall = geometry.split_wall(wall, Vec2i::new(-20, 3));
    assert_eq!(new_wall.vertex(&geometry).position(&geometry), Vec2i::new(-20, 3));
    assert_eq!(new_wall.next_wall(&geometry), old_next);
    assert_eq!(old_next.prev_wall(&geometry), new_wall);
    assert_eq!(new_wall.room(&geometry), room);
    assert_eq!(new_wall.connected_wall(&geometry), None);
    assert_eq!(new_wall.vertex(&geometry).wall(&geometry), new_wall);
    assert_eq!(geometry.num_vertices(), 5);
}

#[test]
fn split_vertex_adds_zero_length_wall() {
    let mut geometry = WorldGeometry::new_square(16);
    let room = geometry.first_room();
    let wall = room.first_wall(&geometry);
    let vertex = wall.vertex(&geometry);
    let incoming = wall.prev_wall(&geometry);
    let new_wall = geometry.split_vertex(vertex).expect("vertex has one outgoing wall");
    assert_eq!(incoming.next_wall(&geometry), new_wall);
    assert_eq!(new_wall.next_wall(&geometry), wall);
    assert_eq!(new_wall.vertex(&geometry).position(&geometry), vertex.position(&geometry));
    assert_eq!(geometry.room_walls(room).len(), 5);
    assert!(validate_ids(&geometry).is_ok());
}

#[test]
fn split_vertex_refuses_shared_vertex() {
    let mut geometry = WorldGeometry::new_square(16);
    let room = geometry.first_room();
    let wall = room.first_wall(&geometry);
    let incoming = wall.prev_wall(&geometry);
    let other_side = wall.next_wall(&geometry);
    // Connect the wall arriving at the vertex to the wall leaving it.
    geometry.connect_wall(incoming, Some(wall)).unwrap();
    assert_eq!(geometry.split_vertex(wall.vertex(&geometry)), Err(GeometryError::SharedVertex));
    assert_eq!(geometry.num_walls(), 4);
    assert_eq!(other_side.prev_wall(&geometry), wall);
}

#[test]
fn connect_wall_is_symmetric_and_replaces() {
    let mut geometry = WorldGeometry::new_square(16);
    let room_b = geometry.insert_room_from_positions(&[
        Vec2i::new(20, 0),
        Vec2i::new(20, 10),
        Vec2i::new(30, 10),
    ]);
    let a = geometry.first_room();
    let a = if a == room_b { geometry.room_ids()[1] } else { a };
    let wa = a.first_wall(&geometry);
    let wb = room_b.first_wall(&geometry);
    let wc = wb.next_wall(&geometry);

    assert_eq!(geometry.connect_wall(wa, Some(wa)), Err(GeometryError::SelfConnection));

    geometry.connect_wall(wa, Some(wb)).unwrap();
    assert_eq!(wa.connected_wall(&geometry), Some(wb));
    assert_eq!(wb.connected_wall(&geometry), Some(wa));
    assert_eq!(wa.connected_room(&geometry), Some(room_b));

    geometry.connect_wall(wc, Some(wa)).unwrap();
    assert_eq!(wa.connected_wall(&geometry), Some(wc));
    assert_eq!(wc.connected_wall(&geometry), Some(wa));
    assert_eq!(wb.connected_wall(&geometry), None);

    geometry.connect_wall(wa, None).unwrap();
    assert_eq!(wa.connected_wall(&geometry), None);
    assert_eq!(wc.connected_wall(&geometry), None);
    assert!(validate_geometry(&geometry).is_ok());
}

#[test]
fn move_connected_follows_connection() {
    let mut geometry = WorldGeometry::new_square(16);
    let room = geometry.first_room();
    let w = room.first_wall(&geometry);
    let t = w.next_wall(&geometry).next_wall(&geometry);
    let mut cursor = w;
    assert!(!cursor.move_connected(&geometry));
    assert_eq!(cursor, w);
    geometry.connect_wall(w, Some(t)).unwrap();
    assert!(cursor.move_connected(&geometry));
    assert_eq!(cursor, t);
    cursor.move_next(&geometry);
    assert_eq!(cursor, t.next_wall(&geometry));
    cursor.move_prev(&geometry);
    assert_eq!(cursor, t);
}

#[test]
fn split_room_closes_both_loops() {
    let mut geometry = WorldGeometry::new();
    let room = geometry.insert_room_from_positions(&[
        Vec2i::new(0, 0),
        Vec2i::new(0, 10),
        Vec2i::new(10, 10),
        Vec2i::new(10, 0),
    ]);
    let walls = geometry.room_walls(room);
    assert_eq!(geometry.split_room(walls[0], walls[0]), Err(GeometryError::FlatRoom));
    assert_eq!(geometry.split_room(walls[1], walls[0]), Err(GeometryError::WholeLoop));

    let new_wall = geometry.split_room(walls[0], walls[1]).expect("split");
    let new_room = new_wall.room(&geometry);
    assert_ne!(new_room, room);
    assert_eq!(geometry.room_walls(new_room).len(), 3);
    assert_eq!(geometry.room_walls(room).len(), 3);
    assert_eq!(walls[0].room(&geometry), new_room);
    assert_eq!(walls[1].room(&geometry), new_room);
    assert_eq!(walls[2].room(&geometry), room);
    let other = new_wall.connected_wall(&geometry).unwrap();
    assert_eq!(other.connected_wall(&geometry), Some(new_wall));
    assert_eq!(other.room(&geometry), room);
    assert_eq!(new_room.get(&geometry).height, room.get(&geometry).height);
    assert!(validate_geometry(&geometry).is_ok());
}

#[test]
fn split_room_refuses_walls_of_different_rooms() {
    let mut geometry = WorldGeometry::new_square(16);
    let other = geometry.insert_room_from_positions(&[Vec2i::new(40, 0), Vec2i::new(40, 8), Vec2i::new(48, 0)]);
    let first = geometry.room_ids().into_iter().find(|r| *r != other).unwrap();
    let a = first.first_wall(&geometry);
    let b = other.first_wall(&geometry);
    assert_eq!(geometry.split_room(a, b), Err(GeometryError::DifferentRooms));
}

#[test]
fn validation_reports_first_concave_corner() {
    let mut geometry = WorldGeometry::new();
    // Clockwise square with one corner pushed in.
    let room = geometry.insert_room_from_positions(&[
        Vec2i::new(0, 0),
        Vec2i::new(0, 10),
        Vec2i::new(5, 5),
        Vec2i::new(10, 10),
        Vec2i::new(10, 0),
    ]);
    let walls = geometry.room_walls(room);
    assert!(validate_ids(&geometry).is_ok());
    assert!(validate_room_loop(&geometry, room).is_ok());
    assert!(validate_vertex(&geometry, walls[0].vertex(&geometry)).is_ok());
    assert_eq!(validate_room_convex(&geometry, room), Err(GeometryError::Concave(walls[1], walls[2])));
    assert_eq!(validate_geometry(&geometry), Err(GeometryError::Concave(walls[1], walls[2])));
}

#[test]
fn appearance_setters_change_only_appearance() {
    let mut geometry = WorldGeometry::new_square(16);
    let room = geometry.first_room();
    let wall = room.first_wall(&geometry);
    let red = Color { r: 255, g: 0, b: 0, a: 255 };
    geometry.set_wall_appearance(wall, red, 3, -2);
    let def = wall.get(&geometry);
    assert_eq!(def.color, red);
    assert_eq!(def.vertical_offset, 3);
    assert_eq!(def.horizontal_offset, -2);
    geometry.set_room_appearance(room, red, Color::white(), 40);
    assert_eq!(room.get(&geometry).height, 40);
    assert_eq!(room.get(&geometry).floor_color, red);
    let v = wall.vertex(&geometry);
    geometry.set_vertex_position(v, Vec2i::new(-9, -9));
    assert_eq!(v.position(&geometry), Vec2i::new(-9, -9));
    assert_eq!(geometry.room_walls(room).len(), 4);
}

#[test]
fn handles_of_other_elements_are_invalid() {
    let geometry = WorldGeometry::new_square(16);
    let room = geometry.first_room();
    let wall = room.first_wall(&geometry);
    assert!(room.is_valid(&geometry));
    assert!(wall.is_valid(&geometry));
    assert!(wall.vertex(&geometry).is_valid(&geometry));
    assert!(!playbox::ids::WallId::null().is_valid(&geometry));
    assert!(playbox::ids::RoomId::null().try_get(&geometry).is_none());
    assert_eq!(geometry.wall_target(playbox::ids::WallId::null()), None);
}

#[test]
fn room_bounds_cover_every_vertex() {
    let mut geometry = WorldGeometry::new();
    let room = geometry.insert_room_from_positions(&[
        Vec2i::new(-3, 2),
        Vec2i::new(4, 9),
        Vec2i::new(7, -1),
    ]);
    let bounds = geometry.room_bounds(room);
    assert_eq!(bounds.min, Vec2i::new(-3, -1));
    assert_eq!(bounds.max, Vec2i::new(7, 9));
    let empty = playbox::bounds::Aabb2i::empty();
    let one = empty.include_point(Vec2i::new(5, -5));
    assert_eq!(one.min, Vec2i::new(5, -5));
    assert_eq!(one.max, Vec2i::new(5, -5));
}

#[test]
fn invert_bitmap_flips_whole_rows() {
    let mut data: Vec<u8> = vec![1, 2, 3, 4, 5, 6, 7, 8, 9, 10, 11];
    playbox::bitmap::invert_bitmap(&mut data, 3);
    assert_eq!(data, vec![7, 8, 9, 4, 5, 6, 1, 2, 3, 10, 11]);
    let mut even: Vec<u8> = vec![1, 2, 3, 4];
    playbox::bitmap::invert_bitmap(&mut even, 2);
    assert_eq!(even, vec![3, 4, 1, 2]);
    let mut short: Vec<u8> = vec![9, 8];
    playbox::bitmap::invert_bitmap(&mut short, 5);
    assert_eq!(short, vec![9, 8]);
}
