//! The debug console's own state: whether its panel is open and whether screen-space
//! ambient occlusion is on, and how each console key changes them.

use vstd::prelude::*;

verus! {

/// State of the in-game debug console.
#[derive(Debug, Clone, Copy, PartialEq, Eq, Structural)]
pub struct DebugConsole {
    pub open: bool,
    pub ssao_enabled: bool,
}

impl Default for DebugConsole {
    fn default() -> (console: Self)
        ensures
            !console.open,
            console.ssao_enabled,
    {
        DebugConsole { open: false, ssao_enabled: true }
    }
}

/// Console keys that change the console's own state.
#[derive(Debug, Clone, Copy, PartialEq, Eq, Structural)]
pub enum ConsoleKey {
    /// F1 or backquote: show or hide the panel.
    Toggle,
    /// R: reset the day defaults, which also turns ambient occlusion back on.
    Reset,
    /// O: turn ambient occlusion on or off.
    ToggleSsao,
}

/// What to do with the camera's ambient-occlusion component after a key.
#[derive(Debug, Clone, Copy, PartialEq, Eq, Structural)]
pub enum SsaoCommand {
    Keep,
    Insert,
    Remove,
}

/// The console after `key`.
pub open spec fn console_after(console: DebugConsole, key: ConsoleKey) -> DebugConsole {
    match key {
        ConsoleKey::Toggle => DebugConsole { open: !console.open, ..console },
        ConsoleKey::Reset => DebugConsole { ssao_enabled: true, ..console },
        ConsoleKey::ToggleSsao => DebugConsole { ssao_enabled: !console.ssao_enabled, ..console },
    }
}

/// The camera command that goes with `key`.
pub open spec fn ssao_command(console: DebugConsole, key: ConsoleKey) -> SsaoCommand {
    match key {
        ConsoleKey::Toggle => SsaoCommand::Keep,
        ConsoleKey::Reset => SsaoCommand::Insert,
        ConsoleKey::ToggleSsao => if console.ssao_enabled {
            SsaoCommand::Remove
        } else {
            SsaoCommand::Insert
        },
    }
}

impl DebugConsole {
    /// Applies one console key; returns what to do with the camera's ambient occlusion.
    pub fn press(&mut self, key: ConsoleKey) -> (command: SsaoCommand)
        ensures
            *final(self) == console_after(*old(self), key),
            command == ssao_command(*old(self), key),
    {
        match key {
            ConsoleKey::Toggle => {
                self.open = !self.open;
                SsaoCommand::Keep
            },
            ConsoleKey::Reset => {
                self.ssao_enabled = true;
                SsaoCommand::Insert
            },
            ConsoleKey::ToggleSsao => {
                self.ssao_enabled = !self.ssao_enabled;
                if self.ssao_enabled {
                    SsaoCommand::Insert
                } else {
                    SsaoCommand::Remove
                }
            },
        }
    }

    /// Visibility of `(panel, hint)`: the panel shows exactly when the console is open,
    /// the one-line hint exactly when it is closed.
    pub fn visibility(&self) -> (shown: (bool, bool))
        ensures
            shown == (self.open, !self.open),
    {
        (self.open, !self.open)
    }
}

/// After any key the camera carries ambient occlusion exactly when the console says it is
/// enabled (a `Keep` never changes the setting); pressing the toggle key twice restores
/// the console.
pub proof fn lemma_ssao_command_matches_state(console: DebugConsole, key: ConsoleKey)
    ensures
        ssao_command(console, key) == SsaoCommand::Insert ==> console_after(console, key).ssao_enabled,
        ssao_command(console, key) == SsaoCommand::Remove ==> !console_after(console, key).ssao_enabled,
        ssao_command(console, key) == SsaoCommand::Keep ==> console_after(console, key).ssao_enabled
            == console.ssao_enabled,
        console_after(console_after(console, ConsoleKey::Toggle), ConsoleKey::Toggle) == console,
        console_after(console_after(console, ConsoleKey::ToggleSsao), ConsoleKey::ToggleSsao) == console,
{
}

} // verus!
