//! The program's own console commands: `quit`, `load <world>` and `gen`.
use vstd::prelude::*;
use crate::console::Console;
use crate::hud::MenuCmd;
use crate::message_bus::MessageBus;
use crate::scenes::SceneCommandError;

verus! {

/// Registers the verbs `quit`, `load` and `gen` with the console.
pub fn register_commands(console: &mut Console)
    ensures
        final(console).verbs() == old(console).verbs().insert("quit"@).insert("load"@).insert("gen"@),
        final(console).shown() == old(console).shown(),
        final(console).pending() == old(console).pending(),
{
    console.register_command("quit".to_owned());
    console.register_command("load".to_owned());
    console.register_command("gen".to_owned());
}

/// Runs one of the program's own commands: `quit` asks the menu to quit to the
/// desktop, `load <world>` to play that world (refused without a name), and
/// `gen` to play a generated world. Any other verb does nothing.
pub fn run_command(verb: &String, args: &String, menu_cmds: &mut MessageBus<MenuCmd>) -> (res: Result<(), SceneCommandError>)
    ensures
        verb@ == "quit"@ ==> res is Ok && final(menu_cmds)@ == old(menu_cmds)@.emit(MenuCmd::QuitToDesktop),
        verb@ == "load"@ && args@.len() == 0 ==> res == Err::<(), SceneCommandError>(SceneCommandError::LoadWithoutName)
            && final(menu_cmds)@ == old(menu_cmds)@,
        verb@ == "load"@ && args@.len() > 0 ==> res is Ok && exists|name: String|
            name@ == args@ && final(menu_cmds)@ == old(menu_cmds)@.emit(MenuCmd::Play(name)),
        verb@ == "gen"@ ==> res is Ok && final(menu_cmds)@ == old(menu_cmds)@.emit(MenuCmd::PlayGeneratedWorld),
        verb@ != "quit"@ && verb@ != "load"@ && verb@ != "gen"@ ==> res is Ok && final(menu_cmds)@ == old(menu_cmds)@,
{
    proof {
        reveal_strlit("quit");
        reveal_strlit("load");
        reveal_strlit("gen");
        assert("quit"@[0] != "load"@[0] && "quit"@[0] != "gen"@[0] && "load"@[0] != "gen"@[0]);
    }
    if *verb == "quit".to_owned() {
        menu_cmds.emit(MenuCmd::QuitToDesktop);
        Ok(())
    } else if *verb == "load".to_owned() {
        if args.as_str().is_empty() {
            return Err(SceneCommandError::LoadWithoutName);
        }
        menu_cmds.emit(MenuCmd::Play(args.clone()));
        Ok(())
    } else if *verb == "gen".to_owned() {
        menu_cmds.emit(MenuCmd::PlayGeneratedWorld);
        Ok(())
    } else {
        Ok(())
    }
}

} // verus!
