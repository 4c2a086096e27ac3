//! Interacting with the object the player looks at: an interact command from
//! the player turns into a command for the HUD, chosen by the kind of object.
use vstd::prelude::*;
use crate::message_bus::{MessageBus, Subscription};

verus! {

/// Commands from the player's controls.
#[derive(Clone, Copy, PartialEq, Eq, Structural, Debug)]
pub enum PlayerCmd {
    Interact,
}

/// Commands for the HUD.
#[derive(Clone, PartialEq, Eq, Debug)]
pub enum HudCmd {
    ShowDialog,
    ShowText(String),
    DismissDialog,
    TransitionWorld { world_name: String, object_name: String },
}

/// Handle of an object of the world.
#[derive(Clone, Copy, PartialEq, Eq, Structural, Debug, Hash)]
pub struct ObjectId {
    pub key: u64,
}

/// What interacting with an object does, by the object's kind.
#[derive(Clone, PartialEq, Eq, Debug)]
pub enum InteractionKind {
    /// A debug object: opens a dialog.
    Debug,
    /// A ladder: takes the player to an object of another world.
    Ladder { target_world: String, target_object: String },
    /// Any other object: nothing happens.
    Inert,
}

/// The HUD command that interacting with an object of kind `kind` gives.
pub open spec fn interaction_command(kind: InteractionKind) -> Option<HudCmd> {
    match kind {
        InteractionKind::Debug => Some(HudCmd::ShowDialog),
        InteractionKind::Ladder { target_world, target_object } => Some(
            HudCmd::TransitionWorld { world_name: target_world, object_name: target_object },
        ),
        InteractionKind::Inert => None,
    }
}

/// Only a debug object opens a dialog, only a ladder passes on a world
/// transition (to its own target), and interacting with any other object gives
/// no HUD command at all.
pub proof fn law_interaction_commands(kind: InteractionKind)
    ensures
        interaction_command(kind) is None <==> !(kind is Debug || kind is Ladder),
        interaction_command(kind) == Some(HudCmd::ShowDialog) <==> kind is Debug,
        (interaction_command(kind) matches Some(HudCmd::TransitionWorld { .. })) <==> kind is Ladder,
        kind matches InteractionKind::Ladder { target_world, target_object } ==> interaction_command(kind) == Some(
            HudCmd::TransitionWorld { world_name: target_world, object_name: target_object },
        ),
{
}

/// The object the player can interact with, and the player's command queue.
pub struct Interactions {
    pub hovered_object: Option<ObjectId>,
    player_cmd_sub: Subscription,
}

impl Interactions {
    /// The hovered object.
    pub closed spec fn hovered(&self) -> Option<ObjectId> {
        self.hovered_object
    }

    /// The subscription to the player's commands.
    pub closed spec fn subscription(&self) -> Subscription {
        self.player_cmd_sub
    }

    /// Nothing hovered, subscribed to the player's commands.
    pub fn new(message_bus: &mut MessageBus<PlayerCmd>) -> (i: Interactions)
        ensures
            i.hovered() is None,
            final(message_bus)@ == old(message_bus)@.subscribe(),
            final(message_bus).owns(&i.subscription()),
            final(message_bus)@.unread(i.subscription().id()) == Seq::<PlayerCmd>::empty(),
    {
        Interactions { hovered_object: None, player_cmd_sub: message_bus.subscribe() }
    }

    /// The command part of a frame. Reads the player's commands up to the first
    /// interact command; when there was one and an object is hovered whose kind
    /// is `hovered_kind` (`None` when the object no longer exists), emits the
    /// HUD command for that kind. Afterwards nothing is hovered, until the
    /// caller sets the object the player now looks at.
    pub fn handle_commands(
        &mut self,
        player_cmds: &mut MessageBus<PlayerCmd>,
        hud_cmds: &mut MessageBus<HudCmd>,
        hovered_kind: Option<InteractionKind>,
    ) -> (interacted: bool)
        requires
            old(player_cmds).owns(&old(self).subscription()),
        ensures
            final(self).subscription() == old(self).subscription(),
            final(self).hovered() is None,
            final(player_cmds).owns(&final(self).subscription()),
            ({
                let s = old(self).subscription().id();
                let unread = old(player_cmds)@.unread(s);
                &&& interacted == (unread.len() > 0)
                &&& interacted ==> final(player_cmds)@ == old(player_cmds)@.set_cursor(s, old(player_cmds)@.cursor(s) + 1)
                &&& !interacted ==> final(player_cmds)@ == old(player_cmds)@
            }),
            ({
                let emitted = if interacted && old(self).hovered() is Some && hovered_kind is Some {
                    interaction_command(hovered_kind->0)
                } else {
                    None
                };
                match emitted {
                    Some(cmd) => final(hud_cmds)@ == old(hud_cmds)@.emit(cmd),
                    None => final(hud_cmds)@ == old(hud_cmds)@,
                }
            }),
    {
        let mut interacted = false;
        if let Some(msg) = player_cmds.poll(&self.player_cmd_sub) {
            if msg == PlayerCmd::Interact {
                interacted = true;
            }
        }
        if interacted && self.hovered_object.is_some() {
            if let Some(kind) = hovered_kind {
                match kind {
                    InteractionKind::Debug => {
                        hud_cmds.emit(HudCmd::ShowDialog);
                    },
                    InteractionKind::Ladder { target_world, target_object } => {
                        hud_cmds.emit(HudCmd::TransitionWorld { world_name: target_world, object_name: target_object });
                    },
                    InteractionKind::Inert => {},
                }
            }
        }
        self.hovered_object = None;
        interacted
    }

    /// Whether an object is hovered.
    pub fn can_interact(&self) -> (b: bool)
        ensures
            b == self.hovered() is Some,
    {
        self.hovered_object.is_some()
    }
}

/// The player's buttons that matter beyond movement this frame.
#[derive(Clone, Copy, PartialEq, Eq, Structural, Debug)]
pub struct PlayerButtons {
    /// The interact button (left mouse or F) went down.
    pub interact: bool,
    /// The free-camera toggle (V) went down.
    pub toggle_free_cam: bool,
}

/// What the rest of the player's frame does after its buttons.
#[derive(Clone, Copy, PartialEq, Eq, Structural, Debug)]
pub struct PlayerStep {
    /// Whether the player moves and looks around this frame (not in a dialog).
    pub moves: bool,
    /// Whether the free camera was just left, so its offset goes back to zero.
    pub reset_free_position: bool,
}

/// The player's button choices for one frame. In a dialog, interacting
/// dismisses it and nothing else happens; otherwise the free-camera toggle
/// flips the free camera, and interacting sends the interact command.
pub fn handle_player_buttons(
    in_dialog: bool,
    free_cam: &mut bool,
    buttons: PlayerButtons,
    hud_cmds: &mut MessageBus<HudCmd>,
    player_cmds: &mut MessageBus<PlayerCmd>,
) -> (step: PlayerStep)
    ensures
        in_dialog ==> {
            &&& step == (PlayerStep { moves: false, reset_free_position: false })
            &&& *final(free_cam) == *old(free_cam)
            &&& final(hud_cmds)@ == if buttons.interact {
                old(hud_cmds)@.emit(HudCmd::DismissDialog)
            } else {
                old(hud_cmds)@
            }
            &&& final(player_cmds)@ == old(player_cmds)@
        },
        !in_dialog ==> {
            &&& *final(free_cam) == (*old(free_cam) != buttons.toggle_free_cam)
            &&& step == (PlayerStep { moves: true, reset_free_position: buttons.toggle_free_cam && *old(free_cam) })
            &&& final(hud_cmds)@ == old(hud_cmds)@
            &&& final(player_cmds)@ == if buttons.interact {
                old(player_cmds)@.emit(PlayerCmd::Interact)
            } else {
                old(player_cmds)@
            }
        },
{
    if in_dialog {
        if buttons.interact {
            hud_cmds.emit(HudCmd::DismissDialog);
        }
        return PlayerStep { moves: false, reset_free_position: false };
    }
    let mut reset_free_position = false;
    if buttons.toggle_free_cam {
        *free_cam = !*free_cam;
        if !*free_cam {
            reset_free_position = true;
        }
    }
    if buttons.interact {
        player_cmds.emit(PlayerCmd::Interact);
    }
    PlayerStep { moves: true, reset_free_position }
}

} // verus!
