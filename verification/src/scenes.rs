//! Which scene is shown, and how the menu commands move between scenes. The
//! caller loads worlds and builds or drops the game scene as told.
use vstd::prelude::*;
use crate::console::Console;
use crate::hud::MenuCmd;
use crate::message_bus::MessageBus;

verus! {

/// The scene shown.
#[derive(Clone, Copy, PartialEq, Eq, Structural, Debug)]
pub enum ActiveScene {
    MainMenu,
    Game,
    PauseMenu,
}

/// What the caller does after a menu command.
#[derive(Clone, PartialEq, Eq, Debug)]
pub enum SceneAction {
    /// Load the named world into the game scene (building it if needed).
    LoadWorld(String),
    /// Generate a world and load it into the game scene.
    LoadGeneratedWorld,
    /// Drop the game scene.
    DropGameScene,
    /// Quit the program.
    Quit,
    /// Nothing.
    Stay,
}

/// The scene shown at the start of a frame, as [`frame_scene`] picks it.
pub open spec fn frame_scene_spec(active: ActiveScene, has_game_scene: bool, escape_pressed: bool) -> ActiveScene {
    if (active == ActiveScene::Game || active == ActiveScene::PauseMenu) && !has_game_scene {
        ActiveScene::MainMenu
    } else if active == ActiveScene::Game && escape_pressed {
        ActiveScene::PauseMenu
    } else {
        active
    }
}

/// The scene to show at the start of a frame: a game or pause scene without a
/// game scene loaded falls back to the main menu, and escape in the game
/// pauses it.
pub fn frame_scene(active: ActiveScene, has_game_scene: bool, escape_pressed: bool) -> (s: ActiveScene)
    ensures
        s == frame_scene_spec(active, has_game_scene, escape_pressed),
{
    if (active == ActiveScene::Game || active == ActiveScene::PauseMenu) && !has_game_scene {
        return ActiveScene::MainMenu;
    }
    if active == ActiveScene::Game && escape_pressed {
        return ActiveScene::PauseMenu;
    }
    active
}

/// Whether a game scene exists after the caller carries out `action`.
pub open spec fn game_scene_after(has_game_scene: bool, action: SceneAction) -> bool {
    match action {
        SceneAction::LoadWorld(_) => true,
        SceneAction::LoadGeneratedWorld => true,
        SceneAction::DropGameScene => false,
        _ => has_game_scene,
    }
}

/// The scene and whether a game scene exists after a menu command and its
/// action.
pub open spec fn menu_step(active: ActiveScene, has_game_scene: bool, cmd: MenuCmd) -> (ActiveScene, bool) {
    match cmd {
        MenuCmd::Play(_) => (ActiveScene::Game, true),
        MenuCmd::PlayGeneratedWorld => (ActiveScene::Game, true),
        MenuCmd::Resume => (if has_game_scene { ActiveScene::Game } else { active }, has_game_scene),
        MenuCmd::QuitToMain => (ActiveScene::MainMenu, false),
        _ => (active, has_game_scene),
    }
}

/// What the caller must do after a menu command.
pub open spec fn menu_action(cmd: MenuCmd) -> SceneAction {
    match cmd {
        MenuCmd::Play(name) => SceneAction::LoadWorld(name),
        MenuCmd::PlayGeneratedWorld => SceneAction::LoadGeneratedWorld,
        MenuCmd::QuitToMain => SceneAction::DropGameScene,
        MenuCmd::QuitToDesktop => SceneAction::Quit,
        _ => SceneAction::Stay,
    }
}

/// The scene after a menu command, and what the caller must do: playing a
/// world (named or generated) shows the game, resuming shows it if there is
/// one, quitting to the main menu drops it, and quitting to the desktop quits.
pub fn handle_menu_cmd(active: ActiveScene, has_game_scene: bool, cmd: MenuCmd) -> (r: (ActiveScene, SceneAction))
    ensures
        match cmd {
            MenuCmd::Play(name) => r == (ActiveScene::Game, SceneAction::LoadWorld(name)),
            MenuCmd::PlayGeneratedWorld => r == (ActiveScene::Game, SceneAction::LoadGeneratedWorld),
            MenuCmd::Resume => r == (if has_game_scene { ActiveScene::Game } else { active }, SceneAction::Stay),
            MenuCmd::QuitToMain => r == (ActiveScene::MainMenu, SceneAction::DropGameScene),
            MenuCmd::QuitToDesktop => r == (active, SceneAction::Quit),
            MenuCmd::Settings => r == (active, SceneAction::Stay),
            MenuCmd::Pause => r == (active, SceneAction::Stay),
        },
        (r.0, game_scene_after(has_game_scene, r.1)) == menu_step(active, has_game_scene, cmd),
        r.1 == menu_action(cmd),
{
    match cmd {
        MenuCmd::Play(name) => (ActiveScene::Game, SceneAction::LoadWorld(name)),
        MenuCmd::PlayGeneratedWorld => (ActiveScene::Game, SceneAction::LoadGeneratedWorld),
        MenuCmd::Resume => if has_game_scene {
            (ActiveScene::Game, SceneAction::Stay)
        } else {
            (active, SceneAction::Stay)
        },
        MenuCmd::QuitToMain => (ActiveScene::MainMenu, SceneAction::DropGameScene),
        MenuCmd::QuitToDesktop => (active, SceneAction::Quit),
        MenuCmd::Settings => (active, SceneAction::Stay),
        MenuCmd::Pause => (active, SceneAction::Stay),
    }
}

/// Refusals of the game scene's console commands.
#[derive(Clone, Copy, PartialEq, Eq, Structural, Debug)]
pub enum SceneCommandError {
    /// `load` was given no world name.
    LoadWithoutName,
    /// `save` was given no world name.
    SaveWithoutName,
}

/// The game scene's console commands. `load <world>` asks the menu to play
/// that world; `save <world>` is taken and the name handed back for the caller
/// to save the world under. Either is refused without a world name.
pub fn handle_scene_console(console: &mut Console, menu_cmds: &mut MessageBus<MenuCmd>) -> (res: Result<
    Option<String>,
    SceneCommandError,
>)
    ensures
        ({
            let pending = old(console).pending() is Some;
            let verb = old(console).pending_verb();
            let args = old(console).pending_args();
            &&& pending && verb == "load"@ ==> {
                &&& final(console).pending() is None
                &&& args.len() == 0 ==> res == Err::<Option<String>, SceneCommandError>(SceneCommandError::LoadWithoutName)
                    && final(menu_cmds)@ == old(menu_cmds)@
                &&& args.len() > 0 ==> res == Ok::<Option<String>, SceneCommandError>(None) && exists|name: String|
                    name@ == args && final(menu_cmds)@ == old(menu_cmds)@.emit(MenuCmd::Play(name))
            }
            &&& pending && verb == "save"@ ==> {
                &&& final(console).pending() is None
                &&& final(menu_cmds)@ == old(menu_cmds)@
                &&& args.len() == 0 ==> res == Err::<Option<String>, SceneCommandError>(SceneCommandError::SaveWithoutName)
                &&& args.len() > 0 ==> (res matches Ok(Some(name)) && name@ == args)
            }
            &&& !(pending && (verb == "load"@ || verb == "save"@)) ==> {
                &&& res == Ok::<Option<String>, SceneCommandError>(None)
                &&& final(console).pending() == old(console).pending()
                &&& final(menu_cmds)@ == old(menu_cmds)@
            }
            &&& final(console).shown() == old(console).shown()
            &&& final(console).verbs() == old(console).verbs()
        }),
{
    proof {
        reveal_strlit("load");
        reveal_strlit("save");
        assert("load"@[0] != "save"@[0]);
        assert("load"@ != "save"@);
    }
    if let Some(world_name) = console.command("load") {
        if world_name.as_str().is_empty() {
            return Err(SceneCommandError::LoadWithoutName);
        }
        menu_cmds.emit(MenuCmd::Play(world_name));
    }
    if let Some(world_name) = console.command("save") {
        if world_name.as_str().is_empty() {
            return Err(SceneCommandError::SaveWithoutName);
        }
        return Ok(Some(world_name));
    }
    Ok(None)
}

/// A game or pause scene is shown only with a game scene loaded.
pub open spec fn scene_consistent(active: ActiveScene, has_game_scene: bool) -> bool {
    (active == ActiveScene::Game || active == ActiveScene::PauseMenu) ==> has_game_scene
}

/// The scene and whether a game scene exists after the menu commands `cmds`,
/// in order.
pub open spec fn menu_run(active: ActiveScene, has_game_scene: bool, cmds: Seq<MenuCmd>) -> (ActiveScene, bool)
    decreases cmds.len(),
{
    if cmds.len() == 0 {
        (active, has_game_scene)
    } else {
        let (a, h) = menu_run(active, has_game_scene, cmds.drop_last());
        menu_step(a, h, cmds.last())
    }
}

/// The scene and whether a game scene exists after a run of frames, each
/// picking its scene (with or without escape pressed) and then taking its
/// menu commands.
pub open spec fn frames_run(active: ActiveScene, has_game_scene: bool, frames: Seq<(bool, Seq<MenuCmd>)>) -> (ActiveScene, bool)
    decreases frames.len(),
{
    if frames.len() == 0 {
        (active, has_game_scene)
    } else {
        let (a, h) = frames_run(active, has_game_scene, frames.drop_last());
        let f = frames.last();
        menu_run(frame_scene_spec(a, h, f.0), h, f.1)
    }
}

/// Takes the menu commands `cmds` in order, as a frame takes the ones it
/// received: the scene and whether a game scene exists after them, and the
/// action each command asks of the caller, in order.
pub fn handle_menu_cmds(active: ActiveScene, has_game_scene: bool, cmds: Vec<MenuCmd>) -> (r: (
    ActiveScene,
    bool,
    Vec<SceneAction>,
))
    ensures
        (r.0, r.1) == menu_run(active, has_game_scene, cmds@),
        r.2@.len() == cmds@.len(),
        forall|i: int|
            0 <= i < cmds@.len() ==> ({
                let before = menu_run(active, has_game_scene, cmds@.take(i));
                (menu_step(before.0, before.1, cmds@[i]).0, game_scene_after(before.1, #[trigger] r.2@[i]))
                    == menu_step(before.0, before.1, cmds@[i])
            }),
        forall|i: int| 0 <= i < cmds@.len() ==> #[trigger] r.2@[i] == menu_action(cmds@[i]),
        scene_consistent(active, has_game_scene) ==> scene_consistent(r.0, r.1),
{
    let ghost all = cmds@;
    let mut rest = cmds;
    let mut scene = active;
    let mut has_game = has_game_scene;
    let mut actions: Vec<SceneAction> = Vec::new();
    let mut i: usize = 0;
    let n = rest.len();
    proof {
        assert(all.take(0) =~= Seq::<MenuCmd>::empty());
        assert(all.skip(0) =~= all);
    }
    while rest.len() > 0
        invariant
            0 <= i <= all.len(),
            all.len() == n,
            rest@ == all.skip(i as int),
            (scene, has_game) == menu_run(active, has_game_scene, all.take(i as int)),
            actions@.len() == i,
            forall|j: int|
                0 <= j < i ==> ({
                    let before = menu_run(active, has_game_scene, all.take(j));
                    (menu_step(before.0, before.1, all[j]).0, game_scene_after(before.1, #[trigger] actions@[j]))
                        == menu_step(before.0, before.1, all[j])
                }),
            forall|j: int| 0 <= j < i ==> #[trigger] actions@[j] == menu_action(all[j]),
        decreases rest.len(),
    {
        let cmd = rest.remove(0);
        proof {
            assert(cmd == all[i as int]);
            assert(all.take(i as int + 1).drop_last() =~= all.take(i as int));
            assert(all.take(i as int + 1).last() == all[i as int]);
            assert(rest@ =~= all.skip(i as int + 1));
        }
        let (next, action) = handle_menu_cmd(scene, has_game, cmd);
        has_game = match action {
            SceneAction::LoadWorld(_) => true,
            SceneAction::LoadGeneratedWorld => true,
            SceneAction::DropGameScene => false,
            _ => has_game,
        };
        scene = next;
        actions.push(action);
        i = i + 1;
    }
    proof {
        assert(all.take(i as int) =~= all);
        if scene_consistent(active, has_game_scene) {
            law_menu_run_keeps_scene_consistent(active, has_game_scene, all);
        }
    }
    (scene, has_game, actions)
}

/// Menu commands keep the game or pause scene shown only with a game scene.
pub proof fn law_menu_run_keeps_scene_consistent(active: ActiveScene, has_game_scene: bool, cmds: Seq<MenuCmd>)
    requires
        scene_consistent(active, has_game_scene),
    ensures
        scene_consistent(menu_run(active, has_game_scene, cmds).0, menu_run(active, has_game_scene, cmds).1),
    decreases cmds.len(),
{
    if cmds.len() > 0 {
        law_menu_run_keeps_scene_consistent(active, has_game_scene, cmds.drop_last());
    }
}

/// Over any run of at least one frame, whatever the start, and over any run
/// from a consistent start, the game or pause scene is shown only with a game
/// scene loaded.
pub proof fn law_frames_keep_scene_consistent(active: ActiveScene, has_game_scene: bool, frames: Seq<(bool, Seq<MenuCmd>)>)
    requires
        scene_consistent(active, has_game_scene) || frames.len() > 0,
    ensures
        scene_consistent(frames_run(active, has_game_scene, frames).0, frames_run(active, has_game_scene, frames).1),
    decreases frames.len(),
{
    if frames.len() > 0 {
        let (a, h) = frames_run(active, has_game_scene, frames.drop_last());
        let f = frames.last();
        assert(scene_consistent(frame_scene_spec(a, h, f.0), h));
        law_menu_run_keeps_scene_consistent(frame_scene_spec(a, h, f.0), h, f.1);
    }
}


/// The scene a frame shows: escape in a loaded game, and nothing else, pauses
/// it; a game or pause scene without a game scene falls back to the main menu;
/// otherwise the scene stays as it was.
pub proof fn law_frame_scene(active: ActiveScene, has_game_scene: bool, escape_pressed: bool)
    ensures
        ({
            let s = frame_scene_spec(active, has_game_scene, escape_pressed);
            &&& active == ActiveScene::Game && has_game_scene && escape_pressed ==> s == ActiveScene::PauseMenu
            &&& s == ActiveScene::PauseMenu && active != ActiveScene::PauseMenu ==> active == ActiveScene::Game
                && has_game_scene && escape_pressed
            &&& !escape_pressed && scene_consistent(active, has_game_scene) ==> s == active
            &&& (active == ActiveScene::Game || active == ActiveScene::PauseMenu) && !has_game_scene ==> s
                == ActiveScene::MainMenu
            &&& active == ActiveScene::MainMenu ==> s == ActiveScene::MainMenu
            &&& active == ActiveScene::PauseMenu && has_game_scene ==> s == ActiveScene::PauseMenu
            &&& scene_consistent(s, has_game_scene)
        }),
{
}

/// Each menu command asks one thing of the caller: quitting to the desktop,
/// and only that, quits; quitting to the main menu, and only that, drops the
/// game scene; playing a world loads that world, playing a generated world
/// generates one; pausing, resuming and the settings ask nothing.
pub proof fn law_menu_actions(cmd: MenuCmd)
    ensures
        menu_action(cmd) == SceneAction::Quit <==> cmd is QuitToDesktop,
        menu_action(cmd) == SceneAction::DropGameScene <==> cmd is QuitToMain,
        menu_action(cmd) == SceneAction::LoadGeneratedWorld <==> cmd is PlayGeneratedWorld,
        (menu_action(cmd) is LoadWorld) <==> cmd is Play,
        cmd matches MenuCmd::Play(name) ==> menu_action(cmd) == SceneAction::LoadWorld(name),
        (cmd is Pause || cmd is Resume || cmd is Settings) <==> menu_action(cmd) == SceneAction::Stay,
{
}

} // verus!
