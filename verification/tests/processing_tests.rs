use playbox::defs::Vec2i;
use playbox::geometry::{GeometryError, WorldGeometry};
use playbox::convexity::{find_concave_wall, find_split_wall, room_is_convex};
use playbox::processing::{split_concave_rooms, RoomSourceMap};
use playbox::room_info::RoomInfo;
use playbox::validation::{validate_geometry, validate_ids, validate_room_loop};

fn room_from(points: &[(i32, i32)]) -> WorldGeometry {
    let mut geometry = WorldGeometry::new();
    let positions: Vec<Vec2i> = points.iter().map(|&(x, y)| Vec2i::new(x, y)).collect();
    geometry.insert_room_from_positions(&positions);
    geometry
}

#[test]
fn split_concave_rooms_noop_for_simple_geometry() {
    let mut geometry = WorldGeometry::new_square(16);
    let mut room_map = RoomSourceMap::new();

    assert!(room_is_convex(&geometry, geometry.first_room()));
    split_concave_rooms(&mut geometry, &mut room_map).expect("split_concave_rooms failed");

    assert!(room_map.is_empty());
    assert_eq!(geometry.num_rooms(), 1);
    assert_eq!(geometry.num_walls(), 4);
    assert_eq!(geometry.num_vertices(), 4);
}

#[test]
fn split_concave_rooms_with_concave_geometry() {
    let mut geometry = WorldGeometry::new_square(16);
    let mut room_map = RoomSourceMap::new();

    let first_room = geometry.first_room();
    let first_wall = first_room.first_wall(&geometry);

    // Half of the first wall's center (-8, 0).
    let _new_wall = geometry.split_wall(first_wall, Vec2i::new(-4, 0));

    assert!(!room_is_convex(&geometry, geometry.first_room()));
    split_concave_rooms(&mut geometry, &mut room_map).expect("split_concave_rooms failed");

    validate_geometry(&geometry).expect("validation failed");

    assert_eq!(room_map.len(), 1);
    assert_eq!(geometry.num_rooms(), 2);
    assert_eq!(geometry.num_walls(), 7);
    assert_eq!(geometry.num_vertices(), 5);
}

#[test]
fn split_concave_rooms_with_very_concave_geometry() {
    let mut geometry = WorldGeometry::new_square(16);
    let mut room_map = RoomSourceMap::new();

    let first_room = geometry.first_room();
    let first_wall = first_room.first_wall(&geometry);
    let second_wall = first_wall.next_wall(&geometry).next_wall(&geometry);

    // Minus half of that wall's center (8, 0).
    geometry.split_wall(second_wall, Vec2i::new(-4, 0));

    assert!(!room_is_convex(&geometry, geometry.first_room()));
    split_concave_rooms(&mut geometry, &mut room_map).expect("split_concave_rooms failed");

    validate_geometry(&geometry).expect("validation failed");

    assert_eq!(room_map.len(), 2);
    assert_eq!(geometry.num_rooms(), 3);
    assert_eq!(geometry.num_walls(), 9);
    assert_eq!(geometry.num_vertices(), 5);
}

#[test]
fn split_concave_rooms_with_self_intersecting_geometry() {
    let mut room_map = RoomSourceMap::new();

    // Some kinda self-intersecting P shape
    let mut geometry = room_from(&[(1, 0), (1, 4), (4, 4), (4, 1), (0, 1), (0, 2), (3, 2), (3, 3), (2, 3), (2, 0)]);

    assert_eq!(geometry.num_rooms(), 1);
    assert_eq!(geometry.num_walls(), 10);
    assert_eq!(geometry.num_vertices(), 10);

    assert!(!room_is_convex(&geometry, geometry.first_room()));
    split_concave_rooms(&mut geometry, &mut room_map).expect("split_concave_rooms failed");

    assert_eq!(room_map.len(), 3);
    assert_eq!(geometry.num_rooms(), 4);
    assert_eq!(geometry.num_walls(), 16);
    assert_eq!(geometry.num_vertices(), 10);

    validate_geometry(&geometry).expect("validation failed");
}

#[test]
fn split_concave_rooms_with_self_intersecting_geometry_reverse() {
    let mut room_map = RoomSourceMap::new();

    // Some kinda self-intersecting P shape
    let mut geometry =
        room_from(&[(-2, 0), (-2, 3), (-3, 3), (-3, 2), (0, 2), (0, 1), (-4, 1), (-4, 4), (-1, 4), (-1, 0)]);

    assert_eq!(geometry.num_rooms(), 1);
    assert_eq!(geometry.num_walls(), 10);
    assert_eq!(geometry.num_vertices(), 10);

    assert!(!room_is_convex(&geometry, geometry.first_room()));
    split_concave_rooms(&mut geometry, &mut room_map).expect("split_concave_rooms failed");

    assert_eq!(room_map.len(), 3);
    assert_eq!(geometry.num_rooms(), 4);
    assert_eq!(geometry.num_walls(), 16);
    assert_eq!(geometry.num_vertices(), 10);

    validate_geometry(&geometry).expect("validation failed");
}

#[test]
fn split_concave_rooms_with_failure_case_1() {
    let mut room_map = RoomSourceMap::new();

    // The shape (2, 0), (1, 2), (0, 2), (2, 3), (1.9, 1), in tenths.
    let mut geometry = room_from(&[(20, 0), (10, 20), (0, 20), (20, 30), (19, 10)]);

    assert_eq!(geometry.num_rooms(), 1);
    assert_eq!(geometry.num_walls(), 5);
    assert_eq!(geometry.num_vertices(), 5);

    assert!(!room_is_convex(&geometry, geometry.first_room()));

    let walls = geometry.wall_ids();

    assert_eq!(find_concave_wall(&geometry, walls[0]), Some(walls[0]));
    assert_eq!(find_concave_wall(&geometry, walls[1]), Some(walls[3]));
    assert_eq!(find_concave_wall(&geometry, walls[2]), Some(walls[3]));
    assert_eq!(find_concave_wall(&geometry, walls[3]), Some(walls[3]));
    assert_eq!(find_concave_wall(&geometry, walls[4]), Some(walls[0]));

    split_concave_rooms(&mut geometry, &mut room_map).expect("split_concave_rooms failed");

    validate_geometry(&geometry).expect("validation failed");
}

#[test]
fn split_concave_rooms_with_failure_case_1_reverse() {
    let mut room_map = RoomSourceMap::new();

    // The shape (-1.9, 1), (-2, 3), (0, 2), (-1, 2), (-2, 0), in tenths.
    let mut geometry = room_from(&[(-19, 10), (-20, 30), (0, 20), (-10, 20), (-20, 0)]);

    assert_eq!(geometry.num_rooms(), 1);
    assert_eq!(geometry.num_walls(), 5);
    assert_eq!(geometry.num_vertices(), 5);

    assert!(!room_is_convex(&geometry, geometry.first_room()));

    split_concave_rooms(&mut geometry, &mut room_map).expect("split_concave_rooms failed");

    validate_geometry(&geometry).expect("validation failed");
}

#[test]
fn split_concave_rooms_with_failure_case_2() {
    let mut room_map = RoomSourceMap::new();

    // The shape (2, 0), (1.5, 3), (0, 4), (4, 4), (2.5, 3.5), in halves.
    let mut geometry = room_from(&[(4, 0), (3, 6), (0, 8), (8, 8), (5, 7)]);

    assert!(!room_is_convex(&geometry, geometry.first_room()));

    let walls = geometry.wall_ids();

    assert_eq!(find_concave_wall(&geometry, walls[0]), Some(walls[0]));
    assert_eq!(find_concave_wall(&geometry, walls[1]), Some(walls[3]));
    assert_eq!(find_concave_wall(&geometry, walls[2]), Some(walls[3]));
    assert_eq!(find_concave_wall(&geometry, walls[3]), Some(walls[3]));
    assert_eq!(find_concave_wall(&geometry, walls[4]), Some(walls[0]));

    split_concave_rooms(&mut geometry, &mut room_map).expect("split_concave_rooms failed");

    validate_geometry(&geometry).expect("validation failed");
}

#[test]
fn split_concave_rooms_with_failure_case_2_reverse() {
    let mut room_map = RoomSourceMap::new();

    // The shape (-2.5, 3.5), (-4, 4), (0, 4), (-1.5, 3), (-2, 0), in halves.
    let mut geometry = room_from(&[(-5, 7), (-8, 8), (0, 8), (-3, 6), (-4, 0)]);

    assert!(!room_is_convex(&geometry, geometry.first_room()));

    split_concave_rooms(&mut geometry, &mut room_map).expect("split_concave_rooms failed");

    validate_geometry(&geometry).expect("validation failed");
}

#[test]
fn split_concave_rooms_with_failure_case_3() {
    let mut room_map = RoomSourceMap::new();

    // Eleven vertices in millionths, rounded; the room's loop visits them in
    // the order 0, 1, 2, 10, 3, 9, 6, 5, 7, 4, 8.
    let vertices = [
        (-2_000_000, -2_000_000),
        (-2_000_000, 2_000_000),
        (2_000_000, 2_000_000),
        (2_172_181, -2_002_598),
        (-1_161_959, -2_009_207),
        (1_067_872, 97_931),
        (968_936, -599_358),
        (-1_094_087, 88_723),
        (-1_574_574, -3_183_587),
        (-331_845, -1_500_985),
        (2_909_154, -2_300_865),
    ];
    let order = [0usize, 1, 2, 10, 3, 9, 6, 5, 7, 4, 8];
    let points: Vec<(i32, i32)> = order.iter().map(|&i| vertices[i]).collect();
    let mut geometry = room_from(&points);
    let room = geometry.first_room();

    validate_ids(&geometry).expect("id validation failed");
    validate_room_loop(&geometry, room).expect("room loop validation failed");

    assert!(!room_is_convex(&geometry, room));

    split_concave_rooms(&mut geometry, &mut room_map).expect("split_concave_rooms failed");

    validate_geometry(&geometry).expect("validation failed");
}

#[test]
fn split_pieces_remember_their_source_room() {
    let mut geometry = WorldGeometry::new_square(16);
    let source = geometry.first_room();
    let first_wall = source.first_wall(&geometry);
    geometry.split_wall(first_wall, Vec2i::new(-4, 0));
    let mut room_map = RoomSourceMap::new();
    split_concave_rooms(&mut geometry, &mut room_map).unwrap();
    for room in geometry.room_ids() {
        if room != source {
            assert_eq!(room_map.get(room), Some(source));
        } else {
            assert_eq!(room_map.get(room), None);
        }
        assert!(room_is_convex(&geometry, room));
    }
}

#[test]
fn processed_rooms_map_back_to_source_rooms() {
    let mut geometry = WorldGeometry::new_square(16);
    let source = geometry.first_room();
    let second_wall = source.first_wall(&geometry).next_wall(&geometry).next_wall(&geometry);
    geometry.split_wall(second_wall, Vec2i::new(-4, 0));
    let mut room_map = RoomSourceMap::new();
    split_concave_rooms(&mut geometry, &mut room_map).unwrap();
    let processed = room_map.to_processed_rooms(source);
    assert_eq!(processed.len(), 3);
    assert_eq!(*processed.last().unwrap(), source);
    for room in geometry.room_ids() {
        assert_eq!(room_map.to_source_room(&geometry, room), source);
        assert!(processed.contains(&room));
    }
}

#[test]
fn find_split_wall_on_concave_corner() {
    let geometry = room_from(&[(0, 0), (0, 10), (5, 5), (10, 10), (10, 0)]);
    let walls = geometry.wall_ids();
    // The corner after the second wall is concave. Walking back from the first
    // wall, the start of the fourth wall lies left of the second wall's
    // direction, so the piece starts at the wall after it, the last one.
    assert_eq!(find_concave_wall(&geometry, walls[0]), Some(walls[1]));
    assert_eq!(find_split_wall(&geometry, walls[1]), Ok(Some(walls[4])));
}

#[test]
fn inside_out_triangle_cannot_be_cut() {
    // A counter-clockwise triangle: every corner is concave, so the wall
    // before each concave corner blocks every cut.
    let geometry = room_from(&[(0, 0), (10, 0), (0, 10)]);
    let walls = geometry.wall_ids();
    assert_eq!(find_concave_wall(&geometry, walls[0]), Some(walls[0]));
    assert_eq!(find_split_wall(&geometry, walls[0]), Ok(None));
    let mut geometry = geometry;
    let mut room_map = RoomSourceMap::new();
    assert_eq!(
        split_concave_rooms(&mut geometry, &mut room_map),
        Err(GeometryError::Concave(walls[0], walls[1]))
    );
    assert_eq!(geometry.num_rooms(), 1);
    assert!(room_map.is_empty());
}

#[test]
fn room_info_lists_connections_and_objects() {
    let mut geometry = WorldGeometry::new_square(16);
    let a = geometry.first_room();
    let b = geometry.insert_room_from_positions(&[Vec2i::new(20, 0), Vec2i::new(20, 10), Vec2i::new(30, 10)]);
    let wa = a.first_wall(&geometry).next_wall(&geometry);
    let wb = b.first_wall(&geometry);
    geometry.connect_wall(wa, Some(wb)).unwrap();
    let objects = vec![b, a, a, b];
    let info = RoomInfo::collect(&geometry, a, &objects);
    assert_eq!(info.object_indices, vec![1, 2]);
    assert_eq!(info.connecting_walls, vec![wa]);
    let info_b = RoomInfo::collect(&geometry, b, &objects);
    assert_eq!(info_b.object_indices, vec![0, 3]);
    assert_eq!(info_b.connecting_walls, vec![wb]);
}
