use playbox::console::{parse_command_line, Console};
use playbox::controllers::{ControlMode, DebugController, DebugInput, GlobalController, GlobalInput};
use playbox::defs::Vec2i;
use playbox::editor::Item;
use playbox::geometry::WorldGeometry;
use playbox::hud::{HudModel, MenuCmd};
use playbox::interactions::{HudCmd, InteractionKind, Interactions, ObjectId, PlayerCmd};
use playbox::message_bus::MessageBus;
use playbox::interactions::{handle_player_buttons, PlayerButtons, PlayerStep};

#[test]
fn global_controller_latches_quit_and_toggles_wireframe() {
    let mut controller = GlobalController::new();
    assert!(!controller.should_quit());

    let effects = controller.update(GlobalInput { quit: false, toggle_wireframe: true, play_sound: true });
    assert_eq!(effects.set_wireframe, Some(true));
    assert!(effects.play_sound);

    let effects = controller.update(GlobalInput { quit: true, toggle_wireframe: false, play_sound: false });
    assert_eq!(effects.set_wireframe, None);
    assert!(controller.should_quit());

    let effects = controller.update(GlobalInput { quit: false, toggle_wireframe: true, play_sound: false });
    assert_eq!(effects.set_wireframe, Some(false));
    assert!(controller.should_quit());
}

#[test]
fn debug_controller_toggles_modes() {
    let controller = DebugController::new();
    let mut active = false;
    let mut mode = ControlMode::OrbitPlayer;
    let effects = controller.update(
        false,
        DebugInput { toggle_active: true, toggle_flycam: true, reset_gems: false },
        &mut active,
        &mut mode,
    );
    assert!(active);
    assert_eq!(effects.set_active_context, Some(true));
    assert_eq!(mode, ControlMode::FreeFly);
    assert!(!effects.reset_gems);

    let effects = controller.update(
        true,
        DebugInput { toggle_active: false, toggle_flycam: true, reset_gems: true },
        &mut active,
        &mut mode,
    );
    assert!(active);
    assert_eq!(effects.set_active_context, None);
    assert_eq!(mode, ControlMode::OrbitPlayer);
    assert!(effects.reset_gems);
}

#[test]
fn command_lines_split_into_verb_and_arguments() {
    assert_eq!(parse_command_line("  hudtext   hello world  "), Some(("hudtext".to_string(), "hello world".to_string())));
    assert_eq!(parse_command_line("quit"), Some(("quit".to_string(), String::new())));
    assert_eq!(parse_command_line("go\tnorth"), Some(("go".to_string(), "north".to_string())));
    assert_eq!(parse_command_line("   "), None);
    assert_eq!(parse_command_line(""), None);
}

#[test]
fn console_hands_out_pending_command_once() {
    let mut console = Console::new();
    assert!(!console.is_visible());
    console.toggle_visible();
    assert!(console.is_visible());
    console.dismiss();
    assert!(!console.is_visible());

    console.submit_line("hudtext Hello there");
    assert_eq!(console.command("other"), None);
    assert_eq!(console.command("hudtext"), Some("Hello there".to_string()));
    assert_eq!(console.command("hudtext"), None);

    console.submit_line("spawn gem");
    assert_eq!(console.take_registered(), None);
    console.register_command("spawn".to_string());
    console.register_command("spawn".to_string());
    assert!(console.is_registered(&"spawn".to_string()));
    assert_eq!(console.take_registered(), Some(("spawn".to_string(), "gem".to_string())));
    assert_eq!(console.take_unhandled(), None);

    console.submit_line("unknown 1 2");
    assert_eq!(console.take_registered(), None);
    assert_eq!(console.take_unhandled(), Some("unknown".to_string()));
    assert_eq!(console.take_unhandled(), None);

    console.submit_line("   ");
    assert_eq!(console.take_unhandled(), None);
}

#[test]
fn interacting_with_a_ladder_requests_a_world_transition() {
    let mut player_cmds = MessageBus::new();
    let mut hud_cmds = MessageBus::new();
    let hud_sub = hud_cmds.subscribe();
    let mut interactions = Interactions::new(&mut player_cmds);
    assert!(!interactions.can_interact());

    // No command: nothing happens, and the hover is cleared.
    interactions.hovered_object = Some(ObjectId { key: 7 });
    assert!(interactions.can_interact());
    let ladder = InteractionKind::Ladder { target_world: "cave".to_string(), target_object: "exit".to_string() };
    assert!(!interactions.handle_commands(&mut player_cmds, &mut hud_cmds, Some(ladder.clone())));
    assert!(!interactions.can_interact());
    assert_eq!(hud_cmds.peek_count(&hud_sub), 0);

    interactions.hovered_object = Some(ObjectId { key: 7 });
    player_cmds.emit(PlayerCmd::Interact);
    player_cmds.emit(PlayerCmd::Interact);
    assert!(interactions.handle_commands(&mut player_cmds, &mut hud_cmds, Some(ladder)));
    assert_eq!(
        hud_cmds.poll_all(&hud_sub),
        vec![HudCmd::TransitionWorld { world_name: "cave".to_string(), object_name: "exit".to_string() }]
    );

    // The second interact command is left for the next frame; nothing hovered.
    assert!(interactions.handle_commands(&mut player_cmds, &mut hud_cmds, None));
    assert_eq!(hud_cmds.peek_count(&hud_sub), 0);

    interactions.hovered_object = Some(ObjectId { key: 1 });
    player_cmds.emit(PlayerCmd::Interact);
    assert!(interactions.handle_commands(&mut player_cmds, &mut hud_cmds, Some(InteractionKind::Debug)));
    assert_eq!(hud_cmds.poll_all(&hud_sub), vec![HudCmd::ShowDialog]);
}

#[test]
fn hud_applies_commands_in_order() {
    let mut hud_cmds = MessageBus::new();
    let mut menu_cmds = MessageBus::new();
    let menu_sub = menu_cmds.subscribe();
    let mut hud = HudModel::new(&mut hud_cmds);

    hud_cmds.emit(HudCmd::ShowDialog);
    hud_cmds.emit(HudCmd::ShowText("first".to_string()));
    hud_cmds.emit(HudCmd::TransitionWorld { world_name: "cave".to_string(), object_name: "exit".to_string() });
    hud_cmds.emit(HudCmd::ShowText("second".to_string()));
    hud.handle_commands(&mut hud_cmds, &mut menu_cmds);
    assert!(hud.in_dialog);
    assert_eq!(hud.hud_text, Some("second".to_string()));
    assert_eq!(menu_cmds.poll_all(&menu_sub), vec![MenuCmd::Play("cave".to_string())]);

    hud_cmds.emit(HudCmd::DismissDialog);
    hud.handle_commands(&mut hud_cmds, &mut menu_cmds);
    assert!(!hud.in_dialog);
    assert_eq!(menu_cmds.poll_all(&menu_sub), vec![]);
}

#[test]
fn editor_items_know_their_room() {
    let mut geometry = WorldGeometry::new_square(16);
    let a = geometry.first_room();
    let b = geometry.insert_room_from_positions(&[Vec2i::new(20, 0), Vec2i::new(20, 10), Vec2i::new(30, 10)]);
    let wall = b.first_wall(&geometry);
    let vertex = wall.vertex(&geometry);
    assert_eq!(Item::Room(a).room_id(&geometry, a, None), a);
    assert_eq!(Item::Wall(wall).room_id(&geometry, a, None), b);
    assert_eq!(Item::Vertex(vertex).room_id(&geometry, a, None), b);
    assert_eq!(Item::PlayerSpawn.room_id(&geometry, a, None), a);
    assert_eq!(Item::Object(ObjectId { key: 3 }).room_id(&geometry, a, Some(b)), b);
}

#[test]
fn program_commands_drive_the_menu() {
    let mut console = playbox::console::Console::new();
    playbox::commands::register_commands(&mut console);
    assert!(console.is_registered(&"quit".to_string()));
    assert!(console.is_registered(&"load".to_string()));
    assert!(console.is_registered(&"gen".to_string()));
    assert!(!console.is_registered(&"save".to_string()));

    let mut menu: playbox::message_bus::MessageBus<playbox::hud::MenuCmd> = playbox::message_bus::MessageBus::new();
    let sub = menu.subscribe();
    let run = |verb: &str, args: &str, menu: &mut playbox::message_bus::MessageBus<playbox::hud::MenuCmd>| {
        playbox::commands::run_command(&verb.to_string(), &args.to_string(), menu)
    };
    assert_eq!(run("load", "", &mut menu), Err(playbox::scenes::SceneCommandError::LoadWithoutName));
    assert_eq!(run("load", "tower", &mut menu), Ok(()));
    assert_eq!(run("gen", "", &mut menu), Ok(()));
    assert_eq!(run("quit", "now", &mut menu), Ok(()));
    assert_eq!(run("dance", "", &mut menu), Ok(()));
    assert_eq!(
        menu.poll_consume_all(&sub),
        vec![
            playbox::hud::MenuCmd::Play("tower".to_string()),
            playbox::hud::MenuCmd::PlayGeneratedWorld,
            playbox::hud::MenuCmd::QuitToDesktop,
        ]
    );
}

#[test]
fn player_buttons_dismiss_dialogs_toggle_free_cam_and_interact() {
    let mut hud: MessageBus<HudCmd> = MessageBus::new();
    let mut player: MessageBus<PlayerCmd> = MessageBus::new();
    let hud_sub = hud.subscribe();
    let player_sub = player.subscribe();
    let mut free_cam = false;

    let both = PlayerButtons { interact: true, toggle_free_cam: true };
    let step = handle_player_buttons(true, &mut free_cam, both, &mut hud, &mut player);
    assert_eq!(step, PlayerStep { moves: false, reset_free_position: false });
    assert!(!free_cam);
    assert_eq!(hud.poll_consume_all(&hud_sub), vec![HudCmd::DismissDialog]);
    assert_eq!(player.poll_consume_all(&player_sub), vec![]);

    let step = handle_player_buttons(false, &mut free_cam, both, &mut hud, &mut player);
    assert_eq!(step, PlayerStep { moves: true, reset_free_position: false });
    assert!(free_cam);
    assert_eq!(player.poll_consume_all(&player_sub), vec![PlayerCmd::Interact]);

    let toggle = PlayerButtons { interact: false, toggle_free_cam: true };
    let step = handle_player_buttons(false, &mut free_cam, toggle, &mut hud, &mut player);
    assert_eq!(step, PlayerStep { moves: true, reset_free_position: true });
    assert!(!free_cam);
    assert_eq!(player.poll_consume_all(&player_sub), vec![]);
    assert_eq!(hud.poll_consume_all(&hud_sub), vec![]);
}
