//! The HUD's state as its commands change it: whether a dialog is open, the
//! text on screen, and the world transitions it passes on to the menu.
use vstd::prelude::*;
use crate::interactions::HudCmd;
use crate::console::Console;
use crate::message_bus::{BusModel, MessageBus, Subscription};

verus! {

/// Commands for the menus.
#[derive(Clone, PartialEq, Eq, Debug)]
pub enum MenuCmd {
    Play(String),
    PlayGeneratedWorld,
    Pause,
    Resume,
    Settings,
    QuitToMain,
    QuitToDesktop,
}

/// The dialog flag and the text after the HUD commands `cmds`, starting from
/// `in_dialog` and `text`.
pub open spec fn hud_state_after(in_dialog: bool, text: Option<String>, cmds: Seq<HudCmd>) -> (bool, Option<String>)
    decreases cmds.len(),
{
    if cmds.len() == 0 {
        (in_dialog, text)
    } else {
        let (d, t) = hud_state_after(in_dialog, text, cmds.drop_last());
        match cmds.last() {
            HudCmd::DismissDialog => (false, t),
            HudCmd::ShowDialog => (true, t),
            HudCmd::ShowText(s) => (d, Some(s)),
            HudCmd::TransitionWorld { .. } => (d, t),
        }
    }
}

/// The menu commands that the HUD commands `cmds` pass on: a play command for
/// each world transition, in order.
pub open spec fn menu_cmds_of(cmds: Seq<HudCmd>) -> Seq<MenuCmd>
    decreases cmds.len(),
{
    if cmds.len() == 0 {
        Seq::<MenuCmd>::empty()
    } else {
        let rest = menu_cmds_of(cmds.drop_last());
        match cmds.last() {
            HudCmd::TransitionWorld { world_name, .. } => rest.push(MenuCmd::Play(world_name)),
            _ => rest,
        }
    }
}

/// The HUD's state. How long the text has been shown is kept by the caller,
/// which clears it when its time is up.
pub struct HudModel {
    pub in_dialog: bool,
    pub hud_text: Option<String>,
    hud_cmd: Subscription,
}

impl HudModel {
    pub closed spec fn dialog_open(&self) -> bool {
        self.in_dialog
    }

    pub closed spec fn text(&self) -> Option<String> {
        self.hud_text
    }

    pub closed spec fn subscription(&self) -> Subscription {
        self.hud_cmd
    }

    /// No dialog, no text, subscribed to the HUD commands.
    pub fn new(bus: &mut MessageBus<HudCmd>) -> (m: HudModel)
        ensures
            !m.dialog_open(),
            m.text() is None,
            final(bus)@ == old(bus)@.subscribe(),
            final(bus).owns(&m.subscription()),
    {
        HudModel { in_dialog: false, hud_text: None, hud_cmd: bus.subscribe() }
    }

    /// Takes every unread HUD command off the queue and applies it in order: a
    /// dialog opens or closes, text is shown, and a world transition becomes a
    /// play command for the menu.
    pub fn handle_commands(&mut self, hud_cmds: &mut MessageBus<HudCmd>, menu_cmds: &mut MessageBus<MenuCmd>)
        requires
            old(hud_cmds).owns(&old(self).subscription()),
        ensures
            final(self).subscription() == old(self).subscription(),
            final(hud_cmds)@ == old(hud_cmds)@.consume_all(old(self).subscription().id()),
            final(hud_cmds).owns(&final(self).subscription()),
            ({
                let cmds = old(hud_cmds)@.unread(old(self).subscription().id());
                &&& (final(self).dialog_open(), final(self).text()) == hud_state_after(
                    old(self).dialog_open(),
                    old(self).text(),
                    cmds,
                )
                &&& final(menu_cmds)@ == (BusModel {
                    messages: old(menu_cmds)@.messages + menu_cmds_of(cmds),
                    cursors: old(menu_cmds)@.cursors,
                })
            }),
    {
        let ghost d0 = self.in_dialog;
        let ghost t0 = self.hud_text;
        let ghost m0 = menu_cmds@;
        let messages = hud_cmds.poll_consume_all(&self.hud_cmd);
        let ghost cmds = messages@;
        let mut messages = messages;
        let mut i: usize = 0;
        let n = messages.len();
        while i < n
            invariant
                self.hud_cmd == old(self).hud_cmd,
                hud_cmds@ == old(hud_cmds)@.consume_all(old(self).subscription().id()),
                old(hud_cmds).owns(&old(self).subscription()),
                n == cmds.len(),
                messages@.len() == n - i,
                messages@ == cmds.skip(i as int),
                0 <= i <= n,
                (self.in_dialog, self.hud_text) == hud_state_after(d0, t0, cmds.take(i as int)),
                menu_cmds@ == (BusModel {
                    messages: m0.messages + menu_cmds_of(cmds.take(i as int)),
                    cursors: m0.cursors,
                }),
            decreases n - i,
        {
            let ghost before = menu_cmds@;
            proof {
                assert(cmds.take(i as int + 1).drop_last() =~= cmds.take(i as int));
                assert(cmds.take(i as int + 1).last() == cmds[i as int]);
                assert(messages@[0] == cmds[i as int]);
            }
            let msg = messages.remove(0);
            proof {
                assert(messages@ =~= cmds.skip(i as int + 1));
            }
            match msg {
                HudCmd::DismissDialog => {
                    self.in_dialog = false;
                },
                HudCmd::ShowDialog => {
                    self.in_dialog = true;
                },
                HudCmd::ShowText(text) => {
                    self.hud_text = Some(text);
                },
                HudCmd::TransitionWorld { world_name, .. } => {
                    menu_cmds.emit(MenuCmd::Play(world_name));
                },
            }
            proof {
                assert(menu_cmds@.messages =~= m0.messages + menu_cmds_of(cmds.take(i as int + 1)));
            }
            i = i + 1;
        }
        proof {
            assert(cmds.take(n as int) =~= cmds);
        }
    }
}

/// The console command `hudtext <text>` shows `<text>` on the HUD.
pub fn handle_hud_commands(console: &mut Console, hud_cmds: &mut MessageBus<HudCmd>)
    ensures
        ({
            let asked = old(console).pending() is Some && old(console).pending_verb() == "hudtext"@;
            &&& asked ==> final(console).pending() is None && exists|text: String|
                text@ == old(console).pending_args() && final(hud_cmds)@ == old(hud_cmds)@.emit(
                    HudCmd::ShowText(text),
                )
            &&& !asked ==> final(console).pending() == old(console).pending() && final(hud_cmds)@ == old(
                hud_cmds,
            )@
            &&& final(console).shown() == old(console).shown()
            &&& final(console).verbs() == old(console).verbs()
        }),
{
    if let Some(text) = console.command("hudtext") {
        hud_cmds.emit(HudCmd::ShowText(text));
    }
}


/// The command changes whether a dialog is open.
pub open spec fn is_dialog_cmd(c: HudCmd) -> bool {
    c is ShowDialog || c is DismissDialog
}

/// After a run of HUD commands, the text on screen is the one the last
/// `ShowText` showed, or the starting text when none came; and a dialog is
/// open exactly when the last command that opens or dismisses one opened it,
/// or, when none came, when one was open at the start. No other command
/// touches either.
pub proof fn law_hud_state_is_last_command(in_dialog: bool, text: Option<String>, cmds: Seq<HudCmd>)
    ensures
        (forall|i: int| 0 <= i < cmds.len() ==> !(#[trigger] cmds[i] is ShowText)) ==> hud_state_after(
            in_dialog,
            text,
            cmds,
        ).1 == text,
        forall|i: int|
            0 <= i < cmds.len() && (#[trigger] cmds[i] is ShowText) && (forall|j: int| i < j < cmds.len() ==> !(
            #[trigger] cmds[j] is ShowText)) ==> hud_state_after(in_dialog, text, cmds).1 == Some(cmds[i]->ShowText_0),
        (forall|i: int| 0 <= i < cmds.len() ==> !is_dialog_cmd(#[trigger] cmds[i])) ==> hud_state_after(
            in_dialog,
            text,
            cmds,
        ).0 == in_dialog,
        forall|i: int|
            0 <= i < cmds.len() && is_dialog_cmd(#[trigger] cmds[i]) && (forall|j: int| i < j < cmds.len() ==> !is_dialog_cmd(
                #[trigger] cmds[j],
            )) ==> hud_state_after(in_dialog, text, cmds).0 == (cmds[i] is ShowDialog),
    decreases cmds.len(),
{
    if cmds.len() > 0 {
        let p = cmds.drop_last();
        let n = cmds.len() - 1;
        law_hud_state_is_last_command(in_dialog, text, p);
        assert(cmds.last() == cmds[n]);
        if forall|i: int| 0 <= i < cmds.len() ==> !(#[trigger] cmds[i] is ShowText) {
            assert forall|i: int| 0 <= i < p.len() implies !(#[trigger] p[i] is ShowText) by {
                assert(p[i] == cmds[i]);
            }
        }
        assert forall|i: int|
            0 <= i < cmds.len() && (#[trigger] cmds[i] is ShowText) && (forall|j: int| i < j < cmds.len() ==> !(
            #[trigger] cmds[j] is ShowText)) implies hud_state_after(in_dialog, text, cmds).1 == Some(cmds[i]->ShowText_0) by {
            if i < n {
                assert(!(cmds[n] is ShowText));
                assert(p[i] == cmds[i]);
                assert forall|j: int| i < j < p.len() implies !(#[trigger] p[j] is ShowText) by {
                    assert(p[j] == cmds[j]);
                }
            }
        }
        if forall|i: int| 0 <= i < cmds.len() ==> !is_dialog_cmd(#[trigger] cmds[i]) {
            assert forall|i: int| 0 <= i < p.len() implies !is_dialog_cmd(#[trigger] p[i]) by {
                assert(p[i] == cmds[i]);
            }
        }
        assert forall|i: int|
            0 <= i < cmds.len() && is_dialog_cmd(#[trigger] cmds[i]) && (forall|j: int| i < j < cmds.len() ==> !is_dialog_cmd(
                #[trigger] cmds[j],
            )) implies hud_state_after(in_dialog, text, cmds).0 == (cmds[i] is ShowDialog) by {
            if i < n {
                assert(!is_dialog_cmd(cmds[n]));
                assert(p[i] == cmds[i]);
                assert forall|j: int| i < j < p.len() implies !is_dialog_cmd(#[trigger] p[j]) by {
                    assert(p[j] == cmds[j]);
                }
            }
        }
    }
}

} // verus!
