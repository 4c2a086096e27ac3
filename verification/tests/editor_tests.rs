use playbox::console::Console;
use playbox::defs::{Color, Vec2i};
use playbox::editing::GeometryEditCmd;
use playbox::editor::{validate_item, validate_model, Item};
use playbox::interactions::ObjectId;
use playbox::geometry::{GeometryError, WorldGeometry};
use playbox::hud::{handle_hud_commands, MenuCmd};
use playbox::ids::{RoomId, WallId};
use playbox::interactions::HudCmd;
use playbox::message_bus::MessageBus;
use playbox::scenes::{frame_scene, handle_menu_cmd, handle_menu_cmds, handle_scene_console, ActiveScene, SceneAction, SceneCommandError};
use playbox::undo::{handle_undo_cmd, EntryTarget, UndoCmd, UndoEntry, UndoGroup, UndoStack, UndoStep};
use playbox::validation::validate_geometry;

fn group(description: &str, entries: Vec<UndoEntry<i32>>) -> UndoGroup<i32> {
    let mut g = UndoGroup::new();
    g.describe_as(description.to_string());
    for e in entries {
        g.push(e);
    }
    g
}

fn entry(target: EntryTarget, before: i32, after: i32) -> UndoEntry<i32> {
    UndoEntry { target, before, after }
}

#[test]
fn undo_group_merges_changes_of_the_same_target() {
    let g = group(
        "move",
        vec![entry(EntryTarget::Object(1), 0, 1), entry(EntryTarget::Object(1), 1, 2), entry(EntryTarget::Player, 5, 6)],
    );
    let changes = g.changes();
    assert_eq!(changes.len(), 2);
    assert_eq!((changes[0].before, changes[0].after), (0, 2));
    assert_eq!((changes[1].before, changes[1].after), (5, 6));
    assert_eq!(g.describe(), "move");
    assert!(!g.is_empty());
}

#[test]
fn undo_and_redo_walk_the_history() {
    let mut stack: UndoStack<i32> = UndoStack::new();
    assert!(!stack.can_undo());
    assert!(!stack.can_redo());
    assert_eq!(stack.undo(), None);

    stack.push_group(group("a", vec![entry(EntryTarget::Player, 0, 1)]), false);
    stack.push_group(group("b", vec![entry(EntryTarget::Player, 1, 2)]), false);
    assert_eq!(stack.len(), 2);
    assert_eq!(stack.index(), 2);

    assert_eq!(stack.undo(), Some(1));
    assert!(stack.can_redo());
    assert_eq!(stack.redo(), Some(1));
    assert_eq!(stack.index(), 2);
    assert_eq!(stack.redo(), None);

    assert_eq!(stack.set_index(0), vec![UndoStep { group: 1, undo: true }, UndoStep { group: 0, undo: true }]);
    assert_eq!(stack.set_index(7), vec![UndoStep { group: 0, undo: false }, UndoStep { group: 1, undo: false }]);
    assert_eq!(stack.index(), 2);
    assert_eq!(stack.set_index(2), vec![]);

    assert_eq!(stack.describe(0), "a");
    assert_eq!(stack.describe(5), "<invalid index>");
}

#[test]
fn pushing_drops_redo_history_and_merges_in_window() {
    let mut stack: UndoStack<i32> = UndoStack::new();
    stack.push_group(group("a", vec![entry(EntryTarget::Player, 0, 1)]), false);
    stack.push_group(group("b", vec![entry(EntryTarget::Player, 1, 2)]), false);
    assert_eq!(stack.undo(), Some(1));

    stack.push_group(group("c", vec![entry(EntryTarget::World, 0, 9)]), false);
    assert_eq!(stack.len(), 2);
    assert!(!stack.can_redo());
    assert_eq!(stack.describe(1), "c");

    stack.push_group(group("c", vec![entry(EntryTarget::World, 9, 10)]), true);
    assert_eq!(stack.len(), 2);
    let last = stack.group(1).changes();
    assert_eq!(last.len(), 1);
    assert_eq!((last[0].before, last[0].after), (0, 10));

    stack.push_group(group("c", vec![entry(EntryTarget::World, 10, 11)]), false);
    assert_eq!(stack.len(), 3);

    stack.clear();
    assert_eq!(stack.len(), 0);
    assert_eq!(stack.index(), 0);
}

#[test]
fn undo_commands_report_their_steps() {
    let mut stack: UndoStack<i32> = UndoStack::new();
    stack.push_group(group("a", vec![entry(EntryTarget::Player, 0, 1)]), false);
    assert_eq!(handle_undo_cmd(&mut stack, UndoCmd::Undo), vec![UndoStep { group: 0, undo: true }]);
    assert_eq!(handle_undo_cmd(&mut stack, UndoCmd::Undo), vec![]);
    assert_eq!(handle_undo_cmd(&mut stack, UndoCmd::Redo), vec![UndoStep { group: 0, undo: false }]);
    assert_eq!(handle_undo_cmd(&mut stack, UndoCmd::SetIndex(0)), vec![UndoStep { group: 0, undo: true }]);
}

#[test]
fn geometry_edits_check_their_handles() {
    let mut geometry = WorldGeometry::new_square(16);
    let room = geometry.first_room();
    let wall = room.first_wall(&geometry);
    let red = Color { r: 200, g: 10, b: 10, a: 255 };

    assert_eq!(
        playbox::editing::handle_geometry_edit_cmd(&mut geometry, GeometryEditCmd::SetCeilingColor(RoomId::null(), red)),
        Err(GeometryError::InvalidId)
    );
    playbox::editing::handle_geometry_edit_cmd(&mut geometry, GeometryEditCmd::SetCeilingColor(room, red)).unwrap();
    assert_eq!(room.get(&geometry).ceiling_color, red);
    playbox::editing::handle_geometry_edit_cmd(&mut geometry, GeometryEditCmd::SetCeilingHeight(room, 48)).unwrap();
    assert_eq!(room.get(&geometry).height, 48);
    playbox::editing::handle_geometry_edit_cmd(&mut geometry, GeometryEditCmd::SetVerticalWallOffset(wall, 4)).unwrap();
    assert_eq!(wall.get(&geometry).vertical_offset, 4);
    assert_eq!(
        playbox::editing::handle_geometry_edit_cmd(&mut geometry, GeometryEditCmd::SetWallColor(WallId::null(), red)),
        Err(GeometryError::InvalidId)
    );
    assert_eq!(
        playbox::editing::handle_geometry_edit_cmd(&mut geometry, GeometryEditCmd::ConnectWall(wall, wall)),
        Err(GeometryError::SelfConnection)
    );
    assert_eq!(
        playbox::editing::handle_geometry_edit_cmd(&mut geometry, GeometryEditCmd::SplitRoom(wall, wall)),
        Err(GeometryError::FlatRoom)
    );
}

#[test]
fn geometry_edits_move_and_reconnect() {
    let mut geometry = WorldGeometry::new_square(16);
    let room = geometry.first_room();
    let wall = room.first_wall(&geometry);
    let far = wall.next_wall(&geometry).next_wall(&geometry);

    playbox::editing::handle_geometry_edit_cmd(&mut geometry, GeometryEditCmd::TranslateItem(Item::Wall(wall), Vec2i::new(-2, 0)))
        .unwrap();
    assert_eq!(wall.vertex(&geometry).position(&geometry), Vec2i::new(-10, -8));
    assert_eq!(wall.next_vertex(&geometry).position(&geometry), Vec2i::new(-10, 8));

    playbox::editing::handle_geometry_edit_cmd(&mut geometry, GeometryEditCmd::ConnectWall(wall, far)).unwrap();
    assert_eq!(far.connected_wall(&geometry), Some(wall));
    playbox::editing::handle_geometry_edit_cmd(&mut geometry, GeometryEditCmd::DisconnectRoom(room)).unwrap();
    assert_eq!(wall.connected_wall(&geometry), None);
    assert_eq!(far.connected_wall(&geometry), None);

    playbox::editing::handle_geometry_edit_cmd(&mut geometry, GeometryEditCmd::SplitWall(wall, Vec2i::new(-20, 0))).unwrap();
    assert_eq!(geometry.num_walls(), 5);
    playbox::editing::handle_geometry_edit_cmd(&mut geometry, GeometryEditCmd::SplitRoom(far, wall)).unwrap();
    assert_eq!(geometry.num_rooms(), 2);
    assert!(playbox::validation::validate_ids(&geometry).is_ok());
    let _ = validate_geometry(&geometry);
}

#[test]
fn menu_commands_switch_scenes() {
    assert_eq!(
        handle_menu_cmd(ActiveScene::MainMenu, false, MenuCmd::Play("cave".to_string())),
        (ActiveScene::Game, SceneAction::LoadWorld("cave".to_string()))
    );
    assert_eq!(handle_menu_cmd(ActiveScene::PauseMenu, true, MenuCmd::Resume), (ActiveScene::Game, SceneAction::Stay));
    assert_eq!(handle_menu_cmd(ActiveScene::MainMenu, false, MenuCmd::Resume), (ActiveScene::MainMenu, SceneAction::Stay));
    assert_eq!(handle_menu_cmd(ActiveScene::Game, true, MenuCmd::QuitToMain), (ActiveScene::MainMenu, SceneAction::DropGameScene));
    assert_eq!(handle_menu_cmd(ActiveScene::Game, true, MenuCmd::QuitToDesktop), (ActiveScene::Game, SceneAction::Quit));
    assert_eq!(frame_scene(ActiveScene::Game, false, false), ActiveScene::MainMenu);
    assert_eq!(frame_scene(ActiveScene::Game, true, true), ActiveScene::PauseMenu);
    assert_eq!(frame_scene(ActiveScene::PauseMenu, true, true), ActiveScene::PauseMenu);
}

#[test]
fn hudtext_command_shows_text() {
    let mut console = Console::new();
    let mut hud_cmds = MessageBus::new();
    let sub = hud_cmds.subscribe();
    console.submit_line("hudtext  Hello, world ");
    handle_hud_commands(&mut console, &mut hud_cmds);
    assert_eq!(hud_cmds.poll_all(&sub), vec![HudCmd::ShowText("Hello, world".to_string())]);
    console.submit_line("other thing");
    handle_hud_commands(&mut console, &mut hud_cmds);
    assert_eq!(hud_cmds.peek_count(&sub), 0);
    assert_eq!(console.take_unhandled(), Some("other".to_string()));
}

#[test]
fn handles_round_trip_through_key_form() {
    let geometry = WorldGeometry::new_square(16);
    let wall = geometry.first_room().first_wall(&geometry);
    assert_eq!(WallId::from_ffi(wall.to_ffi()), wall);
    assert!(WallId::from_ffi(wall.to_ffi()).is_valid(&geometry));
    assert_eq!(WallId::from_ffi(0), WallId::from_ffi(0x1_0000_0000));
}

#[test]
fn stale_items_are_cleared() {
    let geometry = WorldGeometry::new_square(16);
    let room = geometry.first_room();
    let wall = room.first_wall(&geometry);

    let mut item = Some(Item::Wall(wall));
    validate_item(&geometry, room, None, &mut item);
    assert_eq!(item, Some(Item::Wall(wall)));

    let mut item = Some(Item::Wall(WallId::null()));
    validate_item(&geometry, room, None, &mut item);
    assert_eq!(item, None);

    let mut item = Some(Item::Object(ObjectId { key: 4 }));
    validate_item(&geometry, room, None, &mut item);
    assert_eq!(item, None);

    let mut item = Some(Item::Object(ObjectId { key: 4 }));
    validate_item(&geometry, room, Some(room), &mut item);
    assert_eq!(item, Some(Item::Object(ObjectId { key: 4 })));

    let mut item = Some(Item::PlayerSpawn);
    validate_item(&geometry, RoomId::null(), None, &mut item);
    assert_eq!(item, None);

    let mut item = None;
    validate_item(&geometry, room, None, &mut item);
    assert_eq!(item, None);
}

#[test]
fn validate_model_falls_back_to_first_room() {
    let geometry = WorldGeometry::new_square(8);
    let room = geometry.first_room();
    let wall = room.first_wall(&geometry);

    let mut focused = Some(RoomId::null());
    let mut spawn = RoomId::null();
    let mut hovered = Some(Item::PlayerSpawn);
    let mut selection = Some(Item::Wall(WallId::null()));
    validate_model(&geometry, &mut focused, &mut spawn, &mut hovered, None, &mut selection, None);
    assert_eq!(focused, Some(room));
    assert_eq!(spawn, room);
    // The spawn room was repaired first, so the spawn point stays hovered.
    assert_eq!(hovered, Some(Item::PlayerSpawn));
    assert_eq!(selection, None);

    let mut focused = None;
    let mut spawn = room;
    let mut hovered = Some(Item::Wall(wall));
    let mut selection = None;
    validate_model(&geometry, &mut focused, &mut spawn, &mut hovered, None, &mut selection, None);
    assert_eq!(focused, Some(room));
    assert_eq!(hovered, Some(Item::Wall(wall)));
    assert_eq!(selection, None);
}

#[test]
fn geometry_edit_removes_rooms_but_not_the_last() {
    let mut geometry = WorldGeometry::new_square(16);
    let first = geometry.first_room();
    assert_eq!(
        playbox::editing::handle_geometry_edit_cmd(&mut geometry, GeometryEditCmd::RemoveRoom(first)),
        Err(GeometryError::LastRoom)
    );
    assert_eq!(geometry.num_rooms(), 1);

    let positions = vec![Vec2i::new(20, 0), Vec2i::new(20, 8), Vec2i::new(28, 8), Vec2i::new(28, 0)];
    let second = geometry.insert_room_from_positions(&positions);
    let wall = first.first_wall(&geometry);
    let other = second.first_wall(&geometry);
    playbox::editing::handle_geometry_edit_cmd(&mut geometry, GeometryEditCmd::ConnectWall(wall, other)).unwrap();
    assert_eq!(geometry.num_rooms(), 2);
    assert_eq!(geometry.num_walls(), 8);
    assert_eq!(geometry.num_vertices(), 8);

    assert_eq!(
        playbox::editing::handle_geometry_edit_cmd(&mut geometry, GeometryEditCmd::RemoveRoom(RoomId::null())),
        Err(GeometryError::InvalidId)
    );
    playbox::editing::handle_geometry_edit_cmd(&mut geometry, GeometryEditCmd::RemoveRoom(second)).unwrap();
    assert_eq!(geometry.num_rooms(), 1);
    assert_eq!(geometry.num_walls(), 4);
    assert_eq!(geometry.num_vertices(), 4);
    assert!(!second.is_valid(&geometry));
    assert!(!other.is_valid(&geometry));
    // The wall that led into the removed room leads nowhere now.
    assert_eq!(wall.connected_wall(&geometry), None);
    assert!(playbox::validation::validate_ids(&geometry).is_ok());
    assert!(validate_geometry(&geometry).is_ok());
}

#[test]
fn scene_console_loads_and_saves_named_worlds() {
    let mut console = Console::new();
    let mut menu: MessageBus<MenuCmd> = MessageBus::new();
    let sub = menu.subscribe();

    console.submit_line("load ");
    assert_eq!(handle_scene_console(&mut console, &mut menu), Err(SceneCommandError::LoadWithoutName));
    assert_eq!(menu.peek_count(&sub), 0);

    console.submit_line("load  castle ");
    assert_eq!(handle_scene_console(&mut console, &mut menu), Ok(None));
    assert_eq!(menu.poll_consume_all(&sub), vec![MenuCmd::Play("castle".to_string())]);

    console.submit_line("save");
    assert_eq!(handle_scene_console(&mut console, &mut menu), Err(SceneCommandError::SaveWithoutName));
    console.submit_line("save keep");
    assert_eq!(handle_scene_console(&mut console, &mut menu), Ok(Some("keep".to_string())));
    assert_eq!(menu.peek_count(&sub), 0);

    console.submit_line("hudtext hi");
    assert_eq!(handle_scene_console(&mut console, &mut menu), Ok(None));
    assert_eq!(console.command("hudtext"), Some("hi".to_string()));
}

#[test]
fn geometry_edit_moves_rooms_and_each_vertex_once() {
    let mut geometry = WorldGeometry::new_square(16);
    let room = geometry.first_room();
    let before: Vec<Vec2i> = geometry.room_vertices(room).iter().map(|v| v.position(&geometry)).collect();
    playbox::editing::handle_geometry_edit_cmd(&mut geometry, GeometryEditCmd::TranslateItem(Item::Room(room), Vec2i::new(3, -2)))
        .unwrap();
    let after: Vec<Vec2i> = geometry.room_vertices(room).iter().map(|v| v.position(&geometry)).collect();
    let expected: Vec<Vec2i> = before.iter().map(|p| Vec2i::new(p.x + 3, p.y - 2)).collect();
    assert_eq!(after, expected);

    // A room of one wall starts and ends that wall at the same vertex: it moves once.
    let lone = geometry.insert_room_from_positions(&[Vec2i::new(40, 40)]);
    let wall = lone.first_wall(&geometry);
    assert_eq!(wall.vertex(&geometry), wall.next_vertex(&geometry));
    playbox::editing::handle_geometry_edit_cmd(&mut geometry, GeometryEditCmd::TranslateItem(Item::Wall(wall), Vec2i::new(1, 1)))
        .unwrap();
    assert_eq!(wall.vertex(&geometry).position(&geometry), Vec2i::new(41, 41));
}

#[test]
fn moving_an_object_is_no_geometry_edit() {
    let mut geometry = WorldGeometry::new_square(16);
    let cmd = GeometryEditCmd::TranslateItem(Item::Object(ObjectId { key: 2 }), Vec2i::new(1, 0));
    assert_eq!(playbox::editing::handle_geometry_edit_cmd(&mut geometry, cmd), Err(GeometryError::NotInGeometry));
    assert!(validate_geometry(&geometry).is_ok());
}

#[test]
fn split_rooms_share_their_cut_vertices() {
    let mut geometry = WorldGeometry::new_square(16);
    let room = geometry.first_room();
    assert!(geometry.room_vertices_are_unshared(room));
    let a = room.first_wall(&geometry);
    let b = a.next_wall(&geometry).next_wall(&geometry);
    playbox::editing::handle_geometry_edit_cmd(&mut geometry, GeometryEditCmd::SplitRoom(a, b)).unwrap();
    let piece = a.room(&geometry);
    assert!(!geometry.room_vertices_are_unshared(piece));
    assert!(!geometry.room_vertices_are_unshared(room));
}

#[test]
fn menu_commands_are_taken_in_order() {
    let cmds = vec![MenuCmd::PlayGeneratedWorld, MenuCmd::Pause, MenuCmd::QuitToMain, MenuCmd::Resume];
    let (scene, has_game, actions) = handle_menu_cmds(ActiveScene::MainMenu, false, cmds);
    assert_eq!(scene, ActiveScene::MainMenu);
    assert!(!has_game);
    assert_eq!(
        actions,
        vec![SceneAction::LoadGeneratedWorld, SceneAction::Stay, SceneAction::DropGameScene, SceneAction::Stay]
    );
    let (scene, has_game, _) = handle_menu_cmds(ActiveScene::PauseMenu, true, vec![MenuCmd::Resume]);
    assert_eq!(scene, ActiveScene::Game);
    assert!(has_game);
}
