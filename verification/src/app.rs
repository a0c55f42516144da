//! Application-level commands and the driver's decision state.
//!
//! The driver loop itself performs terminal I/O and lives outside the
//! library; the decisions it takes on each application command are made
//! here, so that they carry contracts.

use vstd::prelude::*;

verus! {

/// A command addressed to the application driver rather than to the text
/// buffer: quit (forced or not), or move focus between the two views.
#[derive(Debug, Clone, Copy, PartialEq, Eq, Structural)]
pub enum ApplicationCommand {
    Quit(bool),
    FocusText,
    FocusCommand,
}

/// The driver's decision state: whether the main loop keeps running and
/// which view currently has the cursor.
#[derive(Debug, Clone, Copy, PartialEq, Eq, Structural)]
pub struct AppState {
    pub running: bool,
    pub txt_focus: bool,
}

impl AppState {
    /// The state at startup: running, with the text view focused.
    pub fn new() -> (r: AppState)
        ensures
            r.running,
            r.txt_focus,
    {
        AppState { running: true, txt_focus: true }
    }

    /// Apply one application command: either `Quit` variant stops the loop,
    /// and the focus commands pick which view owns the cursor.
    pub fn process_command(&mut self, cmd: ApplicationCommand)
        ensures
            final(self).running == match cmd {
                ApplicationCommand::Quit(_) => false,
                _ => old(self).running,
            },
            final(self).txt_focus == match cmd {
                ApplicationCommand::FocusText => true,
                ApplicationCommand::FocusCommand => false,
                ApplicationCommand::Quit(_) => old(self).txt_focus,
            },
    {
        match cmd {
            ApplicationCommand::Quit(_force) => self.running = false,
            ApplicationCommand::FocusText => self.txt_focus = true,
            ApplicationCommand::FocusCommand => self.txt_focus = false,
        }
    }
}

} // verus!
