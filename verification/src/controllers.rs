//! Per-frame decisions of the global and debug controllers. Each controller
//! takes the actions that fired this frame and returns what the frame should
//! do; the caller owns the input contexts, the renderer and the sounds.
use vstd::prelude::*;

verus! {

/// The global actions that fired this frame.
#[derive(Clone, Copy, PartialEq, Eq, Structural, Debug)]
pub struct GlobalInput {
    pub quit: bool,
    pub toggle_wireframe: bool,
    pub play_sound: bool,
}

/// What the frame should do after a global update.
#[derive(Clone, Copy, PartialEq, Eq, Structural, Debug)]
pub struct GlobalEffects {
    /// The wireframe mode to hand to the renderer, when it changed.
    pub set_wireframe: Option<bool>,
    /// Whether to start the pluck sound.
    pub play_sound: bool,
}

/// Quitting and wireframe state of the game.
pub struct GlobalController {
    should_quit: bool,
    wireframe_enabled: bool,
}

impl GlobalController {
    pub closed spec fn quit_requested(&self) -> bool {
        self.should_quit
    }

    pub closed spec fn wireframe(&self) -> bool {
        self.wireframe_enabled
    }

    /// Not quitting, wireframe off.
    pub fn new() -> (c: GlobalController)
        ensures
            !c.quit_requested(),
            !c.wireframe(),
    {
        GlobalController { should_quit: false, wireframe_enabled: false }
    }

    /// Handles one frame's actions: quitting latches, the wireframe toggle flips
    /// the mode and reports the new one, and a sound request is passed on.
    pub fn update(&mut self, input: GlobalInput) -> (effects: GlobalEffects)
        ensures
            final(self).quit_requested() == (old(self).quit_requested() || input.quit),
            final(self).quit_requested() == quit_after(old(self).quit_requested(), seq![input]),
            final(self).wireframe() == (old(self).wireframe() != input.toggle_wireframe),
            effects.set_wireframe == if input.toggle_wireframe {
                Some(final(self).wireframe())
            } else {
                None::<bool>
            },
            effects.play_sound == input.play_sound,
    {
        if input.quit {
            self.should_quit = true;
        }
        let mut set_wireframe = None;
        if input.toggle_wireframe {
            self.wireframe_enabled = !self.wireframe_enabled;
            set_wireframe = Some(self.wireframe_enabled);
        }
        proof {
            assert(seq![input].drop_last() =~= Seq::<GlobalInput>::empty());
            assert(quit_after(old(self).quit_requested(), seq![input].drop_last()) == old(self).quit_requested());
        }
        GlobalEffects { set_wireframe, play_sound: input.play_sound }
    }

    /// Whether quitting was asked for.
    pub fn should_quit(&self) -> (q: bool)
        ensures
            q == self.quit_requested(),
    {
        self.should_quit
    }
}

/// Whether quitting is asked for after the frames `inputs`, starting from
/// `start`: each frame's update latches a quit action.
pub open spec fn quit_after(start: bool, inputs: Seq<GlobalInput>) -> bool
    decreases inputs.len(),
{
    if inputs.len() == 0 {
        start
    } else {
        quit_after(start, inputs.drop_last()) || inputs.last().quit
    }
}

/// From a new controller, quitting is asked for after a run of updates exactly
/// when one of them saw the quit action; once asked for, it stays.
pub proof fn law_quit_sticky(start: bool, inputs: Seq<GlobalInput>)
    ensures
        quit_after(start, inputs) <==> (start || exists|i: int| 0 <= i < inputs.len() && (#[trigger] inputs[i]).quit),
    decreases inputs.len(),
{
    if inputs.len() > 0 {
        let p = inputs.drop_last();
        law_quit_sticky(start, p);
        if exists|i: int| 0 <= i < p.len() && (#[trigger] p[i]).quit {
            let i = choose|i: int| 0 <= i < p.len() && (#[trigger] p[i]).quit;
            assert(inputs[i] == p[i]);
        }
        if exists|i: int| 0 <= i < inputs.len() && (#[trigger] inputs[i]).quit {
            let i = choose|i: int| 0 <= i < inputs.len() && (#[trigger] inputs[i]).quit;
            if i < p.len() {
                assert(p[i] == inputs[i]);
            }
        }
        if inputs.last().quit {
            assert(inputs[inputs.len() - 1].quit);
        }
    }
}

/// How the camera is driven.
#[derive(Clone, Copy, PartialEq, Eq, Structural, Debug)]
pub enum ControlMode {
    OrbitPlayer,
    FreeFly,
}

/// The debug actions that fired this frame.
#[derive(Clone, Copy, PartialEq, Eq, Structural, Debug)]
pub struct DebugInput {
    pub toggle_active: bool,
    pub toggle_flycam: bool,
    pub reset_gems: bool,
}

/// What the frame should do after a debug update.
#[derive(Clone, Copy, PartialEq, Eq, Structural, Debug)]
pub struct DebugEffects {
    /// Enter (`true`) or leave (`false`) the active debug input context.
    pub set_active_context: Option<bool>,
    /// Whether every gem goes back to idle.
    pub reset_gems: bool,
}

/// Switches debug mode and the free-flying camera.
pub struct DebugController {}

impl DebugController {
    pub fn new() -> (c: DebugController) {
        DebugController {}
    }

    /// Handles one frame's debug actions. `currently_active` is whether the
    /// active debug context is entered; toggling flips it and sets the debug
    /// flag to the new state; the fly-cam toggle switches the camera mode.
    pub fn update(&self, currently_active: bool, input: DebugInput, debug_active: &mut bool, control_mode: &mut ControlMode)
        -> (effects: DebugEffects)
        ensures
            *final(debug_active) == if input.toggle_active {
                !currently_active
            } else {
                *old(debug_active)
            },
            effects.set_active_context == if input.toggle_active {
                Some(!currently_active)
            } else {
                None::<bool>
            },
            effects.reset_gems == input.reset_gems,
            *final(control_mode) == if input.toggle_flycam {
                match *old(control_mode) {
                    ControlMode::OrbitPlayer => ControlMode::FreeFly,
                    ControlMode::FreeFly => ControlMode::OrbitPlayer,
                }
            } else {
                *old(control_mode)
            },
    {
        let mut set_active_context = None;
        if input.toggle_active {
            set_active_context = Some(!currently_active);
            *debug_active = !currently_active;
        }
        if input.toggle_flycam {
            *control_mode = match *control_mode {
                ControlMode::OrbitPlayer => ControlMode::FreeFly,
                ControlMode::FreeFly => ControlMode::OrbitPlayer,
            };
        }
        DebugEffects { set_active_context, reset_gems: input.reset_gems }
    }
}

} // verus!
