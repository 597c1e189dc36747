//! The control messages that a browser sends and what they do to the station.

use crate::config::{DemodConfig, DemodMode, MINUS_100, ZERO};
use crate::json::{json_number, json_text, number_member, text_member};
use crate::number::{double_to_integer, integer_of_double};
use crate::settings::{text_view, Settings, SettingsView};
use crate::text::{law_trimmed, trim, trimmed};
use vstd::prelude::*;
use vstd::string::*;

verus! {

/// The members of a control message that some command reads. Numbers are bit patterns of
/// doubles.
#[derive(Debug)]
pub struct Request {
    pub cmd: Option<String>,
    pub name: Option<String>,
    pub old_name: Option<String>,
    pub new_name: Option<String>,
    pub label: Option<String>,
    pub mode: Option<String>,
    pub freq_hz: Option<u64>,
    pub offset_hz: Option<u64>,
    pub squelch_db: Option<u64>,
}

/// What a `Request` holds.
#[verifier::ext_equal]
pub struct RequestView {
    pub cmd: Option<Seq<char>>,
    pub name: Option<Seq<char>>,
    pub old_name: Option<Seq<char>>,
    pub new_name: Option<Seq<char>>,
    pub label: Option<Seq<char>>,
    pub mode: Option<Seq<char>>,
    pub freq_hz: Option<u64>,
    pub offset_hz: Option<u64>,
    pub squelch_db: Option<u64>,
}

impl View for Request {
    type V = RequestView;

    open spec fn view(&self) -> RequestView {
        RequestView {
            cmd: text_view(self.cmd),
            name: text_view(self.name),
            old_name: text_view(self.old_name),
            new_name: text_view(self.new_name),
            label: text_view(self.label),
            mode: text_view(self.mode),
            freq_hz: self.freq_hz,
            offset_hz: self.offset_hz,
            squelch_db: self.squelch_db,
        }
    }
}

/// The members of the JSON text `message`.
pub open spec fn request_in(message: Seq<char>) -> RequestView {
    RequestView {
        cmd: json_text(message, "cmd"@),
        name: json_text(message, "name"@),
        old_name: json_text(message, "old_name"@),
        new_name: json_text(message, "new_name"@),
        label: json_text(message, "label"@),
        mode: json_text(message, "mode"@),
        freq_hz: json_number(message, "freq_hz"@),
        offset_hz: json_number(message, "offset_hz"@),
        squelch_db: json_number(message, "squelch_db"@),
    }
}

/// A command, with everything it needs.
#[derive(Debug)]
pub enum Command {
    GetProfiles,
    AddMarker { freq_hz: i64, label: String },
    RemoveMarker { freq_hz: i64 },
    SetDemod { demod: DemodConfig },
    Apply { settings: Settings },
    SelectProfile { name: String },
    SaveProfile { name: String, settings: Settings },
    DeleteProfile { name: String },
    LoadProfile { name: String },
    RenameProfile { old_name: String, new_name: String },
}

/// What a `Command` holds.
#[verifier::ext_equal]
pub enum CommandView {
    GetProfiles,
    AddMarker { freq_hz: i64, label: Seq<char> },
    RemoveMarker { freq_hz: i64 },
    SetDemod { demod: DemodConfig },
    Apply { settings: SettingsView },
    SelectProfile { name: Seq<char> },
    SaveProfile { name: Seq<char>, settings: SettingsView },
    DeleteProfile { name: Seq<char> },
    LoadProfile { name: Seq<char> },
    RenameProfile { old_name: Seq<char>, new_name: Seq<char> },
}

impl View for Command {
    type V = CommandView;

    open spec fn view(&self) -> CommandView {
        match self {
            Command::GetProfiles => CommandView::GetProfiles,
            Command::AddMarker { freq_hz, label } => CommandView::AddMarker {
                freq_hz: *freq_hz,
                label: label@,
            },
            Command::RemoveMarker { freq_hz } => CommandView::RemoveMarker { freq_hz: *freq_hz },
            Command::SetDemod { demod } => CommandView::SetDemod { demod: *demod },
            Command::Apply { settings } => CommandView::Apply { settings: settings@ },
            Command::SelectProfile { name } => CommandView::SelectProfile { name: name@ },
            Command::SaveProfile { name, settings } => CommandView::SaveProfile {
                name: name@,
                settings: settings@,
            },
            Command::DeleteProfile { name } => CommandView::DeleteProfile { name: name@ },
            Command::LoadProfile { name } => CommandView::LoadProfile { name: name@ },
            Command::RenameProfile { old_name, new_name } => CommandView::RenameProfile {
                old_name: old_name@,
                new_name: new_name@,
            },
        }
    }
}

/// What is told of a command: whether the sender is answered with the profiles, and whether
/// they are to be written to disk.
#[derive(Debug, Clone, Copy, PartialEq, Eq, Structural)]
pub struct Outcome {
    pub reply: bool,
    pub save: bool,
}

/// What optional settings hold.
pub open spec fn settings_view(s: Option<Settings>) -> Option<SettingsView> {
    match s {
        Some(s) => Some(s@),
        None => None,
    }
}

/// What an optional command holds.
pub open spec fn command_view(c: Option<Command>) -> Option<CommandView> {
    match c {
        Some(c) => Some(c@),
        None => None,
    }
}

/// The demodulator that a control message asks for; any other word, or none, turns it off.
pub open spec fn mode_named(mode: Option<Seq<char>>) -> Option<DemodMode> {
    if mode == Some("NBFM"@) {
        Some(DemodMode::NBFM)
    } else if mode == Some("WBFM"@) {
        Some(DemodMode::WBFM)
    } else if mode == Some("AM"@) {
        Some(DemodMode::AM)
    } else {
        None
    }
}

/// The number in `n`, or `default` where there is none.
pub open spec fn number_or(n: Option<u64>, default: u64) -> u64 {
    match n {
        Some(n) => n,
        None => default,
    }
}

/// The command in a control message; `None` when the message is not understood: it names no
/// known command, lacks a member that the command needs, or has a label or a new name that is
/// empty once trimmed. `settings` is what the message's member of that name was found to be.
pub open spec fn command_in(r: RequestView, settings: Option<SettingsView>) -> Option<CommandView> {
    if r.cmd == Some("get_profiles"@) {
        Some(CommandView::GetProfiles)
    } else if r.cmd == Some("add_marker"@) {
        match (r.freq_hz, r.label) {
            (Some(freq_hz), Some(label)) if trimmed(label).len() > 0 => Some(
                CommandView::AddMarker {
                    freq_hz: double_to_integer(freq_hz) as i64,
                    label: trimmed(label),
                },
            ),
            _ => None,
        }
    } else if r.cmd == Some("remove_marker"@) {
        match r.freq_hz {
            Some(freq_hz) => Some(
                CommandView::RemoveMarker { freq_hz: double_to_integer(freq_hz) as i64 },
            ),
            None => None,
        }
    } else if r.cmd == Some("set_demod"@) {
        Some(
            CommandView::SetDemod {
                demod: DemodConfig {
                    mode: mode_named(r.mode),
                    offset_hz: number_or(r.offset_hz, ZERO),
                    squelch_db: number_or(r.squelch_db, MINUS_100),
                },
            },
        )
    } else if r.cmd == Some("apply"@) {
        match settings {
            Some(settings) => Some(CommandView::Apply { settings }),
            None => None,
        }
    } else if r.cmd == Some("select_profile"@) {
        match r.name {
            Some(name) => Some(CommandView::SelectProfile { name }),
            None => None,
        }
    } else if r.cmd == Some("save_profile"@) {
        match (r.name, settings) {
            (Some(name), Some(settings)) if trimmed(name).len() > 0 => Some(
                CommandView::SaveProfile { name: trimmed(name), settings },
            ),
            _ => None,
        }
    } else if r.cmd == Some("delete_profile"@) {
        match r.name {
            Some(name) => Some(CommandView::DeleteProfile { name }),
            None => None,
        }
    } else if r.cmd == Some("load_profile"@) {
        match r.name {
            Some(name) => Some(CommandView::LoadProfile { name }),
            None => None,
        }
    } else if r.cmd == Some("rename_profile"@) {
        match (r.old_name, r.new_name) {
            (Some(old_name), Some(new_name)) if trimmed(new_name).len() > 0 => Some(
                CommandView::RenameProfile { old_name, new_name: trimmed(new_name) },
            ),
            _ => None,
        }
    } else {
        None
    }
}

/// Whether the text `s` is `word`.
fn is_word(s: &String, word: &str) -> (r: bool)
    ensures
        r == (s@ == word@),
{
    *s == word.to_owned()
}

/// The demodulator named `mode`.
fn mode_of(mode: &Option<String>) -> (r: Option<DemodMode>)
    ensures
        r == mode_named(text_view(*mode)),
{
    match mode {
        Some(m) => if is_word(m, "NBFM") {
            Some(DemodMode::NBFM)
        } else if is_word(m, "WBFM") {
            Some(DemodMode::WBFM)
        } else if is_word(m, "AM") {
            Some(DemodMode::AM)
        } else {
            None
        },
        None => None,
    }
}

impl Request {
    /// Reads the members of the JSON text `message`.
    pub fn read(message: &str) -> (r: Request)
        ensures
            r@ == request_in(message@),
    {
        Request {
            cmd: text_member(message, "cmd"),
            name: text_member(message, "name"),
            old_name: text_member(message, "old_name"),
            new_name: text_member(message, "new_name"),
            label: text_member(message, "label"),
            mode: text_member(message, "mode"),
            freq_hz: number_member(message, "freq_hz"),
            offset_hz: number_member(message, "offset_hz"),
            squelch_db: number_member(message, "squelch_db"),
        }
    }

    /// The command in this message, given what its member `settings` was found to be.
    pub fn command(&self, settings: Option<Settings>) -> (r: Option<Command>)
        ensures
            command_view(r) == command_in(self@, settings_view(settings)),
    {
        let cmd = match &self.cmd {
            Some(cmd) => cmd,
            None => {
                return None;
            },
        };
        if is_word(cmd, "get_profiles") {
            Some(Command::GetProfiles)
        } else if is_word(cmd, "add_marker") {
            match (self.freq_hz, &self.label) {
                (Some(freq_hz), Some(label)) => {
                    let label = trim(label.as_str());
                    if label.as_str().is_empty() {
                        None
                    } else {
                        Some(Command::AddMarker { freq_hz: integer_of_double(freq_hz), label })
                    }
                },
                _ => None,
            }
        } else if is_word(cmd, "remove_marker") {
            match self.freq_hz {
                Some(freq_hz) => Some(
                    Command::RemoveMarker { freq_hz: integer_of_double(freq_hz) },
                ),
                None => None,
            }
        } else if is_word(cmd, "set_demod") {
            let offset_hz: u64 = match self.offset_hz {
                Some(n) => n,
                None => ZERO,
            };
            let squelch_db: u64 = match self.squelch_db {
                Some(n) => n,
                None => MINUS_100,
            };
            Some(
                Command::SetDemod {
                    demod: DemodConfig { mode: mode_of(&self.mode), offset_hz, squelch_db },
                },
            )
        } else if is_word(cmd, "apply") {
            match settings {
                Some(settings) => Some(Command::Apply { settings }),
                None => None,
            }
        } else if is_word(cmd, "select_profile") {
            match &self.name {
                Some(name) => Some(Command::SelectProfile { name: name.clone() }),
                None => None,
            }
        } else if is_word(cmd, "save_profile") {
            match (&self.name, settings) {
                (Some(name), Some(settings)) => {
                    let name = trim(name.as_str());
                    if name.as_str().is_empty() {
                        None
                    } else {
                        Some(Command::SaveProfile { name, settings })
                    }
                },
                _ => None,
            }
        } else if is_word(cmd, "delete_profile") {
            match &self.name {
                Some(name) => Some(Command::DeleteProfile { name: name.clone() }),
                None => None,
            }
        } else if is_word(cmd, "load_profile") {
            match &self.name {
                Some(name) => Some(Command::LoadProfile { name: name.clone() }),
                None => None,
            }
        } else if is_word(cmd, "rename_profile") {
            match (&self.old_name, &self.new_name) {
                (Some(old_name), Some(new_name)) => {
                    let new_name = trim(new_name.as_str());
                    if new_name.as_str().is_empty() {
                        None
                    } else {
                        Some(Command::RenameProfile { old_name: old_name.clone(), new_name })
                    }
                },
                _ => None,
            }
        } else {
            None
        }
    }
}

/// Names that a command stores, and labels, are not empty and have no white space at their
/// ends.
pub proof fn law_stored_texts_are_trimmed(r: RequestView, settings: Option<SettingsView>)
    ensures
        match command_in(r, settings) {
            Some(CommandView::AddMarker { label, .. }) => label.len() > 0 && trimmed(label)
                == label,
            Some(CommandView::SaveProfile { name, .. }) => name.len() > 0 && trimmed(name) == name,
            Some(CommandView::RenameProfile { new_name, .. }) => new_name.len() > 0 && trimmed(
                new_name,
            ) == new_name,
            _ => true,
        },
{
    if let Some(label) = r.label {
        law_trimmed(label);
    }
    if let Some(name) = r.name {
        law_trimmed(name);
    }
    if let Some(new_name) = r.new_name {
        law_trimmed(new_name);
    }
}

/// A text that is there is shown, and one that is not is not.
pub open spec fn shows_text(t: Option<String>, shown: Option<Seq<char>>) -> bool {
    &&& t matches Some(text) ==> shown == Some(text@)
    &&& t is None ==> shown is None
}

/// A message shows its members, each as it is.
pub proof fn law_request_shows_its_members(r: Request)
    ensures
        shows_text(r.cmd, r@.cmd),
        shows_text(r.name, r@.name),
        shows_text(r.old_name, r@.old_name),
        shows_text(r.new_name, r@.new_name),
        shows_text(r.label, r@.label),
        shows_text(r.mode, r@.mode),
        r@.freq_hz == r.freq_hz,
        r@.offset_hz == r.offset_hz,
        r@.squelch_db == r.squelch_db,
{
}

/// A command shows what it is and everything it needs.
pub proof fn law_command_shows_its_parts(c: Command, settings: Option<Settings>)
    ensures
        match c {
            Command::GetProfiles => c@ is GetProfiles,
            Command::AddMarker { freq_hz, label } => c@ == (CommandView::AddMarker {
                freq_hz,
                label: label@,
            }),
            Command::RemoveMarker { freq_hz } => c@ == (CommandView::RemoveMarker { freq_hz }),
            Command::SetDemod { demod } => c@ == (CommandView::SetDemod { demod }),
            Command::Apply { settings } => c@ == (CommandView::Apply { settings: settings@ }),
            Command::SelectProfile { name } => c@ == (CommandView::SelectProfile { name: name@ }),
            Command::SaveProfile { name, settings } => c@ == (CommandView::SaveProfile {
                name: name@,
                settings: settings@,
            }),
            Command::DeleteProfile { name } => c@ == (CommandView::DeleteProfile { name: name@ }),
            Command::LoadProfile { name } => c@ == (CommandView::LoadProfile { name: name@ }),
            Command::RenameProfile { old_name, new_name } => c@ == (CommandView::RenameProfile {
                old_name: old_name@,
                new_name: new_name@,
            }),
        },
        settings matches Some(s) ==> settings_view(settings) == Some(s@),
        settings is None ==> settings_view(settings) is None,
{
}

} // verus!
