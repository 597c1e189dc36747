//! The state that control messages act on, and what each command does to it.

use crate::command::{
    command_in, mode_named, number_or, request_in, settings_view, Command, CommandView, Outcome,
    Request, RequestView,
};
use crate::config::{default_config, DemodConfig, DemodMode};
use crate::json::{json_number, json_text};
use crate::number::double_to_integer;
use crate::settings::{law_pinned_once, MarkerView, Settings, SettingsView};
use crate::store::{
    distinct_names, first_name, is_first_name, law_first_name, law_profiles_by_name, profile_map,
    Profile, ProfileStore, StoreView,
};
use crate::text::{law_order_of_texts, parts_at, stands_before, trimmed};
use vstd::prelude::*;
use vstd::string::*;

verus! {

/// The live settings, the stored profiles and the demodulator chosen.
#[derive(Debug)]
pub struct Station {
    pub settings: Settings,
    pub store: ProfileStore,
    pub demod: DemodConfig,
}

/// What a `Station` holds.
#[verifier::ext_equal]
pub struct StationView {
    pub settings: SettingsView,
    pub store: StoreView,
    pub demod: DemodConfig,
}

impl View for Station {
    type V = StationView;

    open spec fn view(&self) -> StationView {
        StationView { settings: self.settings@, store: self.store@, demod: self.demod }
    }
}

/// The members of the message that tells a browser the profiles.
#[derive(Debug)]
pub struct ProfilesMessage<'a> {
    /// What stands under "type": the word "profiles".
    pub kind: &'a str,
    /// What stands under "current": the name of the profile in use.
    pub current: &'a String,
    /// What stands under "profiles": the profiles by their names.
    pub profiles: &'a Vec<Profile>,
}

/// `message` tells the profiles in `store`.
pub open spec fn tells(message: ProfilesMessage<'_>, store: StoreView) -> bool {
    &&& message.kind@ == "profiles"@
    &&& message.current@ == store.current
    &&& distinct_names(message.profiles@)
    &&& profile_map(message.profiles@) == store.profiles
}

/// What a station tells where `outcome` came of a command that led to it: its profiles, or
/// nothing where the command is not answered.
pub open spec fn told(st: StationView, outcome: Outcome) -> Option<StoreView> {
    if outcome.reply {
        Some(st.store)
    } else {
        None
    }
}

/// Neither an answer nor anything to write.
pub open spec fn quiet() -> Outcome {
    Outcome { reply: false, save: false }
}

/// An answer, and nothing to write.
pub open spec fn answered() -> Outcome {
    Outcome { reply: true, save: false }
}

/// An answer, and the profiles to be written.
pub open spec fn answered_and_saved() -> Outcome {
    Outcome { reply: true, save: true }
}

impl StationView {
    /// This station with `store` in place of its profiles.
    pub open spec fn with_store(self, store: StoreView) -> StationView {
        StationView { store, ..self }
    }

    /// Whether the station turns the command down: it names a profile that is not there, or
    /// would delete the last one.
    pub open spec fn refuses(self, command: CommandView) -> bool {
        match command {
            CommandView::SelectProfile { name } => !self.store.profiles.contains_key(name),
            CommandView::LoadProfile { name } => !self.store.profiles.contains_key(name),
            CommandView::RenameProfile { old_name, .. } => !self.store.profiles.contains_key(
                old_name,
            ),
            CommandView::DeleteProfile { .. } => self.store.profiles.len() <= 1,
            _ => false,
        }
    }

    /// The station after `command`, and what is told of it.
    pub open spec fn after(self, command: CommandView) -> (StationView, Outcome) {
        let profiles = self.store.profiles;
        if self.refuses(command) {
            (self, quiet())
        } else {
            match command {
                CommandView::GetProfiles => (self, answered()),
                CommandView::AddMarker { freq_hz, label } => if self.store.consistent() {
                    let settings = self.store.current_settings().with_marker(freq_hz, label);
                    (self.with_store(self.store.with_current_settings(settings)), answered_and_saved())
                } else {
                    (self, answered())
                },
                CommandView::RemoveMarker { freq_hz } => if self.store.consistent() {
                    let settings = self.store.current_settings().without_marker(freq_hz);
                    (self.with_store(self.store.with_current_settings(settings)), answered_and_saved())
                } else {
                    (self, answered())
                },
                CommandView::SetDemod { demod } => (StationView { demod, ..self }, quiet()),
                CommandView::Apply { settings } => (StationView { settings, ..self }, quiet()),
                CommandView::SelectProfile { name } => (
                    StationView {
                        settings: profiles[name],
                        store: StoreView { current: name, profiles },
                        ..self
                    },
                    answered(),
                ),
                CommandView::SaveProfile { name, settings } => (
                    StationView {
                        settings,
                        store: StoreView { current: name, profiles: profiles.insert(name, settings) },
                        ..self
                    },
                    answered_and_saved(),
                ),
                CommandView::DeleteProfile { name } => {
                    let left = profiles.remove(name);
                    let current = if self.store.current == name {
                        first_name(left)
                    } else {
                        self.store.current
                    };
                    (self.with_store(StoreView { current, profiles: left }), answered_and_saved())
                },
                CommandView::LoadProfile { name } => (
                    self.with_store(StoreView { current: name, profiles }),
                    answered_and_saved(),
                ),
                CommandView::RenameProfile { old_name, new_name } => {
                    let current = if self.store.current == old_name {
                        new_name
                    } else {
                        self.store.current
                    };
                    let moved = profiles.remove(old_name).insert(new_name, profiles[old_name]);
                    (self.with_store(StoreView { current, profiles: moved }), answered_and_saved())
                },
            }
        }
    }

    /// The station after a control message, and what is told of it. A message that is not
    /// understood is ignored.
    pub open spec fn after_request(
        self,
        request: RequestView,
        settings: Option<SettingsView>,
    ) -> (StationView, Outcome) {
        match command_in(request, settings) {
            Some(command) => self.after(command),
            None => (self, quiet()),
        }
    }
}

/// Removing one profile leaves all but at most one.
proof fn lemma_remove_leaves(profiles: Map<Seq<char>, SettingsView>, name: Seq<char>)
    requires
        profiles.dom().finite(),
    ensures
        profiles.remove(name).dom().finite(),
        profiles.remove(name).len() >= profiles.len() - 1,
{
    if !profiles.contains_key(name) {
        assert(profiles.remove(name) =~= profiles);
    }
}

impl Station {
    /// The profiles are well formed.
    pub open spec fn wf(&self) -> bool {
        self.store.wf()
    }

    /// The station at start: the profiles as loaded, the settings of the one in use, and no
    /// demodulator chosen.
    pub fn new(store: ProfileStore) -> (r: Self)
        requires
            store.wf(),
        ensures
            r.wf(),
            r@ == (StationView {
                settings: store@.current_settings(),
                store: store@,
                demod: default_config(),
            }),
    {
        Station { settings: store.current_settings(), store, demod: DemodConfig::default() }
    }

    /// Carries out `command`.
    pub fn execute(&mut self, command: Command) -> (r: Outcome)
        requires
            old(self).wf(),
        ensures
            final(self).wf(),
            (final(self)@, r) == old(self)@.after(command@),
    {
        let ghost before = self@;
        match command {
            Command::GetProfiles => Outcome { reply: true, save: false },
            Command::AddMarker { freq_hz, label } => {
                let save = self.store.add_marker(freq_hz, label);
                Outcome { reply: true, save }
            },
            Command::RemoveMarker { freq_hz } => {
                let save = self.store.remove_marker(freq_hz);
                Outcome { reply: true, save }
            },
            Command::SetDemod { demod } => {
                self.demod = demod;
                Outcome { reply: false, save: false }
            },
            Command::Apply { settings } => {
                self.settings = settings;
                Outcome { reply: false, save: false }
            },
            Command::SelectProfile { name } => {
                let settings = match self.store.get(&name) {
                    Some(settings) => settings.clone(),
                    None => {
                        return Outcome { reply: false, save: false };
                    },
                };
                self.store.set_current(name);
                self.settings = settings;
                Outcome { reply: true, save: false }
            },
            Command::SaveProfile { name, settings } => {
                self.settings = settings.clone();
                self.store.insert(name.clone(), settings);
                self.store.set_current(name);
                Outcome { reply: true, save: true }
            },
            Command::DeleteProfile { name } => {
                if self.store.len() <= 1 {
                    return Outcome { reply: false, save: false };
                }
                proof {
                    self.store.lemma_finite();
                    lemma_remove_leaves(self.store@.profiles, name@);
                }
                self.store.remove(&name);
                if *self.store.current() == name {
                    let first = self.store.first_name().clone();
                    self.store.set_current(first);
                }
                Outcome { reply: true, save: true }
            },
            Command::LoadProfile { name } => {
                if !self.store.contains(&name) {
                    return Outcome { reply: false, save: false };
                }
                self.store.set_current(name);
                Outcome { reply: true, save: true }
            },
            Command::RenameProfile { old_name, new_name } => {
                let settings = match self.store.remove(&old_name) {
                    Some(settings) => settings,
                    None => {
                        assert(self@ =~= before);
                        return Outcome { reply: false, save: false };
                    },
                };
                self.store.insert(new_name.clone(), settings);
                if *self.store.current() == old_name {
                    self.store.set_current(new_name);
                }
                Outcome { reply: true, save: true }
            },
        }
    }

    /// Acts on a control message whose members are at hand. `settings` is what its member of
    /// that name was found to be.
    pub fn process_request(&mut self, request: &Request, settings: Option<Settings>) -> (r: Outcome)
        requires
            old(self).wf(),
        ensures
            final(self).wf(),
            (final(self)@, r) == old(self)@.after_request(request@, settings_view(settings)),
    {
        match request.command(settings) {
            Some(command) => self.execute(command),
            None => Outcome { reply: false, save: false },
        }
    }

    /// Acts on the control message `message`, a JSON text. `settings` is what its member of
    /// that name was found to be.
    pub fn process_command(&mut self, message: &str, settings: Option<Settings>) -> (r: Outcome)
        requires
            old(self).wf(),
        ensures
            final(self).wf(),
            (final(self)@, r) == old(self)@.after_request(
                request_in(message@),
                settings_view(settings),
            ),
    {
        let request = Request::read(message);
        self.process_request(&request, settings)
    }

    /// The message that tells a browser the profiles.
    pub fn profiles_message(&self) -> (r: ProfilesMessage<'_>)
        requires
            self.wf(),
        ensures
            tells(r, self@.store),
    {
        ProfilesMessage {
            kind: "profiles",
            current: self.store.current(),
            profiles: self.store.profiles(),
        }
    }

    /// The answer to the sender of a message whose outcome is `outcome`, now that it has been
    /// acted on.
    pub fn reply(&self, outcome: &Outcome) -> (r: Option<ProfilesMessage<'_>>)
        requires
            self.wf(),
        ensures
            r is Some == told(self@, *outcome) is Some,
            r matches Some(message) ==> tells(message, told(self@, *outcome)->0),
    {
        if outcome.reply {
            Some(self.profiles_message())
        } else {
            None
        }
    }
}

/// The profile in use is always among the stored ones, if it once was. So there is always at
/// least one profile.
pub proof fn law_current_profile_exists(st: StationView, command: CommandView)
    requires
        st.store.consistent(),
        st.store.profiles.dom().finite(),
    ensures
        st.after(command).0.store.consistent(),
        st.after(command).0.store.profiles.dom().finite(),
        st.after(command).0.store.profiles.len() > 0,
{
    let profiles = st.store.profiles;
    let after = st.after(command).0.store;
    if let CommandView::DeleteProfile { name } = command {
        lemma_remove_leaves(profiles, name);
        if !st.refuses(command) {
            law_first_name(profiles.remove(name));
        }
    }
    assert(after.profiles.dom().finite());
    assert(after.consistent());
    if after.profiles.len() == 0 {
        assert(after.profiles.dom() =~= Set::empty());
    }
}

/// A command that the station turns down changes nothing, is not answered and writes
/// nothing; every other command but `SetDemod` and `Apply` is answered.
pub proof fn law_refused_changes_nothing(st: StationView, command: CommandView)
    ensures
        st.refuses(command) ==> st.after(command) == (st, quiet()),
        st.after(command).1.reply <==> !st.refuses(command) && !(command is SetDemod) && !(
        command is Apply),
{
}

/// Whoever is answered is told the profiles as they are after the command: the one in use and
/// all of them. A message that asks for the profiles is always answered, and changes nothing.
pub proof fn law_answers_tell_the_profiles(
    st: StationView,
    request: RequestView,
    settings: Option<SettingsView>,
)
    ensures
        ({
            let (after, outcome) = st.after_request(request, settings);
            &&& told(after, outcome) matches Some(store) ==> store == after.store
            &&& request.cmd == Some("get_profiles"@) ==> after == st && told(after, outcome)
                == Some(st.store)
        }),
{
}

/// A message that is not understood changes nothing, is not answered and writes nothing.
pub proof fn law_unknown_changes_nothing(
    st: StationView,
    request: RequestView,
    settings: Option<SettingsView>,
)
    requires
        command_in(request, settings) is None,
    ensures
        st.after_request(request, settings) == (st, quiet()),
{
}

/// Every change of the stored profiles is written to disk, but for the choice of another
/// profile by `SelectProfile`; what is written is also answered.
pub proof fn law_changes_are_saved(st: StationView, command: CommandView)
    ensures
        st.after(command).0.store != st.store && !(command is SelectProfile) ==> st.after(
            command,
        ).1.save,
        st.after(command).1.save ==> st.after(command).1.reply,
{
}

/// What is saved under a name is what selecting that name brings back, whatever other
/// settings were applied and whichever demodulator was chosen in between.
pub proof fn law_select_restores_saved(
    st: StationView,
    name: Seq<char>,
    settings: SettingsView,
    other: SettingsView,
    demod: DemodConfig,
)
    ensures
        ({
            let saved = st.after(CommandView::SaveProfile { name, settings }).0;
            let applied = saved.after(CommandView::Apply { settings: other }).0;
            let tuned = applied.after(CommandView::SetDemod { demod }).0;
            let (selected, outcome) = tuned.after(CommandView::SelectProfile { name });
            &&& saved.settings == settings
            &&& applied.settings == other
            &&& selected.settings == settings
            &&& selected.store == saved.store
            &&& outcome == answered()
        }),
{
}

/// After `SelectProfile` and `SaveProfile` the live settings are those of the profile in use.
pub proof fn law_live_settings_follow(st: StationView, command: CommandView)
    requires
        command is SelectProfile || command is SaveProfile,
        !st.refuses(command),
    ensures
        st.after(command).0.settings == st.after(command).0.store.current_settings(),
{
}

/// The live settings change by `Apply`, `SelectProfile` and `SaveProfile` only, the choice of
/// a demodulator by `SetDemod` only, and the profiles by neither `Apply` nor `SetDemod` nor
/// `GetProfiles`.
pub proof fn law_commands_keep_to_their_part(st: StationView, command: CommandView)
    ensures
        !(command is Apply || command is SelectProfile || command is SaveProfile) ==> st.after(
            command,
        ).0.settings == st.settings,
        !(command is SetDemod) ==> st.after(command).0.demod == st.demod,
        command is Apply || command is SetDemod || command is GetProfiles ==> st.after(
            command,
        ).0.store == st.store,
{
}

/// Whether `command` is about the profile `name`.
pub open spec fn concerns(st: StationView, command: CommandView, name: Seq<char>) -> bool {
    match command {
        CommandView::AddMarker { .. } => name == st.store.current,
        CommandView::RemoveMarker { .. } => name == st.store.current,
        CommandView::SaveProfile { name: n, .. } => name == n,
        CommandView::DeleteProfile { name: n } => name == n,
        CommandView::RenameProfile { old_name, new_name } => name == old_name || name == new_name,
        _ => false,
    }
}

/// A command leaves every profile as it is that it is not about.
pub proof fn law_other_profiles_unchanged(st: StationView, command: CommandView, name: Seq<char>)
    requires
        !concerns(st, command, name),
    ensures
        st.after(command).0.store.profiles.contains_key(name)
            == st.store.profiles.contains_key(name),
        st.store.profiles.contains_key(name) ==> st.after(command).0.store.profiles[name]
            == st.store.profiles[name],
{
}

/// Renaming a profile to a name that is free, and back, restores the profiles and the one in
/// use.
pub proof fn law_rename_back(st: StationView, old_name: Seq<char>, new_name: Seq<char>)
    requires
        st.store.profiles.contains_key(old_name),
        !st.store.profiles.contains_key(new_name),
        st.store.current != new_name,
    ensures
        ({
            let renamed = st.after(CommandView::RenameProfile { old_name, new_name }).0;
            let back = renamed.after(
                CommandView::RenameProfile { old_name: new_name, new_name: old_name },
            ).0;
            &&& renamed.store.profiles.contains_key(new_name)
            &&& renamed.store.profiles[new_name] == st.store.profiles[old_name]
            &&& !renamed.store.profiles.contains_key(old_name)
            &&& back == st
        }),
{
    let renamed = st.after(CommandView::RenameProfile { old_name, new_name }).0;
    let back = renamed.after(
        CommandView::RenameProfile { old_name: new_name, new_name: old_name },
    ).0;
    assert(back.store.profiles =~= st.store.profiles);
}

/// A deleted profile is gone; if it was in use, the first of those left is.
pub proof fn law_delete(st: StationView, name: Seq<char>)
    requires
        st.store.profiles.dom().finite(),
        st.store.profiles.len() > 1,
    ensures
        ({
            let after = st.after(CommandView::DeleteProfile { name }).0.store;
            &&& !after.profiles.contains_key(name)
            &&& after.current != name
            &&& st.store.current == name ==> is_first_name(after.profiles, after.current)
            &&& st.store.current != name ==> after.current == st.store.current
        }),
{
    lemma_remove_leaves(st.store.profiles, name);
    law_first_name(st.store.profiles.remove(name));
}

/// Removing a pinned channel undoes pinning it where none was pinned before.
pub proof fn law_unpin(st: StationView, freq_hz: i64, label: Seq<char>)
    requires
        st.store.consistent(),
        st.store.current_settings().without_marker(freq_hz) == st.store.current_settings(),
    ensures
        st.after(CommandView::AddMarker { freq_hz, label }).0.after(
            CommandView::RemoveMarker { freq_hz },
        ).0 == st,
{
    let s = st.store.current_settings();
    law_pinned_once(s, freq_hz, label);
    let back = st.after(CommandView::AddMarker { freq_hz, label }).0.after(
        CommandView::RemoveMarker { freq_hz },
    ).0;
    assert(back.store.profiles =~= st.store.profiles);
}

/// A station shows what it holds: the live settings, the choice of a demodulator, the name of
/// the profile in use and the profiles.
pub proof fn law_station_shows_its_parts(st: Station, profiles: Seq<Profile>, i: int)
    requires
        distinct_names(profiles),
        0 <= i < profiles.len(),
    ensures
        st@.demod.mode == st.demod.mode,
        st@.demod.offset_hz == st.demod.offset_hz,
        st@.demod.squelch_db == st.demod.squelch_db,
        st@.settings.centre_freq == st.settings.centre_freq,
        st@.settings.sample_rate == st.settings.sample_rate,
        st@.settings.gain_tenths == st.settings.gain_tenths,
        st@.settings.spec_min_db == st.settings.spec_min_db,
        st@.settings.spec_max_db == st.settings.spec_max_db,
        st@.settings.wf_min_db == st.settings.wf_min_db,
        st@.settings.wf_max_db == st.settings.wf_max_db,
        st@.settings.squelch_db == st.settings.squelch_db,
        st@.settings.markers.len() == st.settings.markers@.len(),
        forall|k: int|
            0 <= k < st.settings.markers@.len() ==> (#[trigger] st@.settings.markers[k]).freq_hz
                == st.settings.markers@[k].freq_hz && st@.settings.markers[k].label
                == st.settings.markers@[k].label@,
        st.settings.demod_mode matches Some(mode) ==> st@.settings.demod_mode == Some(mode@),
        st.settings.demod_mode is None ==> st@.settings.demod_mode is None,
        profile_map(profiles).contains_key(profiles[i].name@),
        profile_map(profiles)[profiles[i].name@] == profiles[i].settings@,
{
    law_profiles_by_name(profiles, i);
}

/// The choice of a demodulator is the one last made: whatever was chosen before, `SetDemod`
/// brings its mode, its offset and its threshold, touches nothing else and is not answered.
pub proof fn law_set_demod(st: StationView, demod: DemodConfig)
    ensures
        ({
            let (after, outcome) = st.after(CommandView::SetDemod { demod });
            &&& after.demod.mode == demod.mode
            &&& after.demod.offset_hz == demod.offset_hz
            &&& after.demod.squelch_db == demod.squelch_db
            &&& after.settings == st.settings
            &&& after.store.current == st.store.current
            &&& after.store.profiles == st.store.profiles
            &&& !outcome.reply
            &&& !outcome.save
        }),
{
}

/// The live settings are those last applied, whatever they were before; the profiles stay as
/// they are, nothing is written and nothing answered.
pub proof fn law_apply(st: StationView, settings: SettingsView)
    ensures
        ({
            let (after, outcome) = st.after(CommandView::Apply { settings });
            &&& after.settings == settings
            &&& after.demod == st.demod
            &&& after.store.current == st.store.current
            &&& after.store.profiles == st.store.profiles
            &&& !outcome.reply
            &&& !outcome.save
        }),
{
}

/// Selecting a profile that is there makes it the one in use and its settings the live ones,
/// whatever they were before; selecting one that is not there does nothing and is not answered.
pub proof fn law_select(st: StationView, name: Seq<char>)
    ensures
        ({
            let (after, outcome) = st.after(CommandView::SelectProfile { name });
            &&& after.store.profiles == st.store.profiles
            &&& after.demod == st.demod
            &&& !outcome.save
            &&& st.store.profiles.contains_key(name) ==> after.store.current == name
                && after.settings == st.store.profiles[name] && outcome.reply
            &&& !st.store.profiles.contains_key(name) ==> after.store.current == st.store.current
                && after.settings == st.settings && !outcome.reply
        }),
{
}

/// Saving stores the settings under the name, in place of what was there, and makes that
/// profile the one in use and its settings the live ones; it is answered and written.
pub proof fn law_save(st: StationView, name: Seq<char>, settings: SettingsView, other: Seq<char>)
    ensures
        ({
            let (after, outcome) = st.after(CommandView::SaveProfile { name, settings });
            &&& after.store.profiles.contains_key(name)
            &&& after.store.profiles[name] == settings
            &&& other != name ==> after.store.profiles.contains_key(other)
                == st.store.profiles.contains_key(other)
            &&& other != name && st.store.profiles.contains_key(other)
                ==> after.store.profiles[other] == st.store.profiles[other]
            &&& after.store.current == name
            &&& after.settings == settings
            &&& after.demod == st.demod
            &&& outcome.reply
            &&& outcome.save
        }),
{
}

/// Loading a profile that is there makes it the one in use, leaves the live settings as they
/// are, and is answered and written; loading one that is not there does nothing.
pub proof fn law_load(st: StationView, name: Seq<char>)
    ensures
        ({
            let (after, outcome) = st.after(CommandView::LoadProfile { name });
            let there = st.store.profiles.contains_key(name);
            &&& after.store.profiles == st.store.profiles
            &&& after.store.current == (if there { name } else { st.store.current })
            &&& after.settings == st.settings
            &&& after.demod == st.demod
            &&& outcome.reply == there
            &&& outcome.save == there
        }),
{
}

/// Deleting takes one profile away and leaves all others, the live settings and the choice of a
/// demodulator as they are. The profile in use stays the same unless it is the one deleted. The
/// last profile cannot be deleted.
pub proof fn law_delete_takes_one(st: StationView, name: Seq<char>, other: Seq<char>)
    requires
        st.store.profiles.dom().finite(),
    ensures
        ({
            let (after, outcome) = st.after(CommandView::DeleteProfile { name });
            let done = st.store.profiles.len() > 1;
            &&& !done ==> after == st && !outcome.reply && !outcome.save
            &&& done ==> outcome.reply && outcome.save
            &&& done ==> !after.store.profiles.contains_key(name)
            &&& other != name ==> after.store.profiles.contains_key(other)
                == st.store.profiles.contains_key(other)
            &&& other != name && st.store.profiles.contains_key(other)
                ==> after.store.profiles[other] == st.store.profiles[other]
            &&& st.store.current != name ==> after.store.current == st.store.current
            &&& done && st.store.current == name ==> after.store.profiles.contains_key(
                after.store.current,
            )
            &&& done && st.store.current == name && after.store.profiles.contains_key(other)
                && other != after.store.current ==> {
                let first = after.store.current;
                exists|i: int|
                    0 <= i <= first.len() && i < other.len() && #[trigger] first.take(i)
                        == other.take(i) && (i == first.len() || (first[i] as int) < (
                    other[i] as int))
            }
            &&& after.settings == st.settings
            &&& after.demod == st.demod
        }),
{
    if st.store.profiles.len() > 1 {
        law_delete(st, name);
        let current = st.after(CommandView::DeleteProfile { name }).0.store.current;
        law_order_of_texts(current, other);
        if stands_before(current, other) {
            let i = choose|i: int| #[trigger] parts_at(current, other, i);
            assert(current.take(i) =~= other.take(i));
        }
    }
}

/// Renaming moves the settings of a profile that is there to the new name, in place of what was
/// there, and leaves all other profiles, the live settings and the choice of a demodulator as
/// they are; the profile in use goes by its new name.
pub proof fn law_rename(
    st: StationView,
    old_name: Seq<char>,
    new_name: Seq<char>,
    other: Seq<char>,
)
    ensures
        ({
            let (after, outcome) = st.after(CommandView::RenameProfile { old_name, new_name });
            let there = st.store.profiles.contains_key(old_name);
            &&& !there ==> after == st && !outcome.reply && !outcome.save
            &&& there ==> outcome.reply && outcome.save
            &&& there ==> after.store.profiles.contains_key(new_name)
                && after.store.profiles[new_name] == st.store.profiles[old_name]
            &&& there && old_name != new_name ==> !after.store.profiles.contains_key(old_name)
            &&& other != old_name && other != new_name ==> after.store.profiles.contains_key(other)
                == st.store.profiles.contains_key(other)
            &&& other != old_name && other != new_name && st.store.profiles.contains_key(other)
                ==> after.store.profiles[other] == st.store.profiles[other]
            &&& there && st.store.current == old_name ==> after.store.current == new_name
            &&& st.store.current != old_name ==> after.store.current == st.store.current
            &&& after.settings == st.settings
            &&& after.demod == st.demod
        }),
{
}

/// Pinning a channel puts it last among the pinned channels of the profile in use, in place of
/// any at the same frequency; those at other frequencies keep their order. Nothing else changes:
/// neither the rest of that profile nor the others, nor the live settings. It is answered, and
/// written where the profile in use is there.
pub proof fn law_pin(st: StationView, freq_hz: i64, label: Seq<char>, other: Seq<char>)
    ensures
        ({
            let (after, outcome) = st.after(CommandView::AddMarker { freq_hz, label });
            let there = st.store.profiles.contains_key(st.store.current);
            let b = st.store.profiles[st.store.current];
            let a = after.store.profiles[st.store.current];
            &&& outcome.reply
            &&& outcome.save == there
            &&& !there ==> after == st
            &&& there ==> after.store.profiles.contains_key(st.store.current)
            &&& there ==> a.centre_freq == b.centre_freq && a.sample_rate == b.sample_rate
                && a.gain_tenths == b.gain_tenths && a.spec_min_db == b.spec_min_db
                && a.spec_max_db == b.spec_max_db && a.wf_min_db == b.wf_min_db && a.wf_max_db
                == b.wf_max_db && a.squelch_db == b.squelch_db && a.demod_mode == b.demod_mode
            &&& there ==> a.markers.len() > 0 && a.markers.last() == (MarkerView { freq_hz, label })
            &&& there ==> a.markers.drop_last() == b.markers.filter(
                |m: MarkerView| m.freq_hz != freq_hz,
            )
            &&& after.store.current == st.store.current
            &&& other != st.store.current ==> after.store.profiles.contains_key(other)
                == st.store.profiles.contains_key(other)
            &&& other != st.store.current && st.store.profiles.contains_key(other)
                ==> after.store.profiles[other] == st.store.profiles[other]
            &&& after.settings == st.settings
            &&& after.demod == st.demod
        }),
{
    if st.store.consistent() {
        let b = st.store.profiles[st.store.current];
        let after = st.after(CommandView::AddMarker { freq_hz, label }).0;
        let a = after.store.profiles[st.store.current];
        assert(a.markers.drop_last() =~= b.markers.filter(
            |m: MarkerView| m.freq_hz != freq_hz,
        ));
    }
}

/// Removing a pinned channel takes away those at its frequency from the profile in use; the
/// others keep their order, and nothing else changes. It is answered, and written where the
/// profile in use is there.
pub proof fn law_remove_pinned(st: StationView, freq_hz: i64, other: Seq<char>)
    ensures
        ({
            let (after, outcome) = st.after(CommandView::RemoveMarker { freq_hz });
            let there = st.store.profiles.contains_key(st.store.current);
            let b = st.store.profiles[st.store.current];
            let a = after.store.profiles[st.store.current];
            &&& outcome.reply
            &&& outcome.save == there
            &&& !there ==> after == st
            &&& there ==> after.store.profiles.contains_key(st.store.current)
            &&& there ==> a.centre_freq == b.centre_freq && a.sample_rate == b.sample_rate
                && a.gain_tenths == b.gain_tenths && a.spec_min_db == b.spec_min_db
                && a.spec_max_db == b.spec_max_db && a.wf_min_db == b.wf_min_db && a.wf_max_db
                == b.wf_max_db && a.squelch_db == b.squelch_db && a.demod_mode == b.demod_mode
            &&& there ==> a.markers == b.markers.filter(|m: MarkerView| m.freq_hz != freq_hz)
            &&& after.store.current == st.store.current
            &&& other != st.store.current ==> after.store.profiles.contains_key(other)
                == st.store.profiles.contains_key(other)
            &&& other != st.store.current && st.store.profiles.contains_key(other)
                ==> after.store.profiles[other] == st.store.profiles[other]
            &&& after.settings == st.settings
            &&& after.demod == st.demod
        }),
{
}

/// Asking for the profiles changes nothing and is answered.
pub proof fn law_get_profiles(st: StationView)
    ensures
        st.after(CommandView::GetProfiles).0 == st,
        st.after(CommandView::GetProfiles).1.reply,
        !st.after(CommandView::GetProfiles).1.save,
{
}

/// A browser that is answered is told the name of the profile in use and every profile by its
/// name, no more and no fewer.
pub proof fn law_told(message: ProfilesMessage<'_>, st: StationView, outcome: Outcome, i: int)
    requires
        told(st, outcome) is Some,
        tells(message, told(st, outcome)->0),
        0 <= i < message.profiles@.len(),
    ensures
        outcome.reply,
        message.kind@ == "profiles"@,
        message.current@ == st.store.current,
        st.store.profiles.contains_key(message.profiles@[i].name@),
        st.store.profiles[message.profiles@[i].name@] == message.profiles@[i].settings@,
        st.store.profiles.len() == message.profiles@.len(),
{
    law_profiles_by_name(message.profiles@, i);
}

/// Who is answered: no one where the command is not to be answered, else the sender.
pub proof fn law_who_is_told(st: StationView, outcome: Outcome)
    ensures
        told(st, outcome) is Some == outcome.reply,
{
}

/// A message that sets the demodulator: its mode is the one named, or none for any other word;
/// an offset that is missing is 0 and a threshold that is missing -100.
pub proof fn law_set_demod_message(
    st: StationView,
    message: Seq<char>,
    settings: Option<SettingsView>,
)
    requires
        json_text(message, "cmd"@) == Some("set_demod"@),
    ensures
        ({
            let (after, outcome) = st.after_request(request_in(message), settings);
            let mode = json_text(message, "mode"@);
            let offset = json_number(message, "offset_hz"@);
            let threshold = json_number(message, "squelch_db"@);
            &&& after.demod.mode == Some(DemodMode::NBFM) <==> mode == Some("NBFM"@)
            &&& after.demod.mode == Some(DemodMode::WBFM) <==> mode == Some("WBFM"@)
            &&& after.demod.mode == Some(DemodMode::AM) <==> mode == Some("AM"@)
            &&& offset matches Some(n) ==> after.demod.offset_hz == n
            &&& offset is None ==> after.demod.offset_hz == 0
            &&& threshold matches Some(n) ==> after.demod.squelch_db == n
            &&& threshold is None ==> after.demod.squelch_db == 0xC059_0000_0000_0000
            &&& after.settings == st.settings
            &&& after.store == st.store
            &&& !outcome.reply
            &&& !outcome.save
        }),
{
    reveal_words();
    law_set_demod(
        st,
        DemodConfig {
            mode: mode_named(json_text(message, "mode"@)),
            offset_hz: number_or(json_number(message, "offset_hz"@), 0),
            squelch_db: number_or(json_number(message, "squelch_db"@), 0xC059_0000_0000_0000),
        },
    );
}

/// A message that applies settings makes them the live ones; one without settings does nothing.
pub proof fn law_apply_message(st: StationView, message: Seq<char>, settings: Option<SettingsView>)
    requires
        json_text(message, "cmd"@) == Some("apply"@),
    ensures
        ({
            let (after, outcome) = st.after_request(request_in(message), settings);
            &&& settings matches Some(s) ==> after.settings == s
            &&& settings is None ==> after.settings == st.settings
            &&& after.store == st.store
            &&& after.demod == st.demod
            &&& !outcome.reply
            &&& !outcome.save
        }),
{
    reveal_words();
}

/// A message that selects a profile by its name makes it the one in use and its settings the
/// live ones; one that names no profile that is there does nothing.
pub proof fn law_select_message(
    st: StationView,
    message: Seq<char>,
    settings: Option<SettingsView>,
)
    requires
        json_text(message, "cmd"@) == Some("select_profile"@),
    ensures
        ({
            let (after, outcome) = st.after_request(request_in(message), settings);
            match json_text(message, "name"@) {
                Some(name) if st.store.profiles.contains_key(name) => {
                    &&& after.store.current == name
                    &&& after.settings == st.store.profiles[name]
                    &&& after.store.profiles == st.store.profiles
                    &&& after.demod == st.demod
                    &&& outcome.reply
                    &&& !outcome.save
                },
                _ => after == st && !outcome.reply && !outcome.save,
            }
        }),
{
    reveal_words();
}

/// A message that saves a profile stores its settings under the name it gives, without white
/// space at its ends, and makes them the live ones; one without a name that is more than white
/// space, or without settings, does nothing.
pub proof fn law_save_message(st: StationView, message: Seq<char>, settings: Option<SettingsView>)
    requires
        json_text(message, "cmd"@) == Some("save_profile"@),
    ensures
        ({
            let (after, outcome) = st.after_request(request_in(message), settings);
            match (json_text(message, "name"@), settings) {
                (Some(name), Some(s)) if trimmed(name).len() > 0 => {
                    &&& after.store.current == trimmed(name)
                    &&& after.store.profiles == st.store.profiles.insert(trimmed(name), s)
                    &&& after.settings == s
                    &&& after.demod == st.demod
                    &&& outcome.reply
                    &&& outcome.save
                },
                _ => after == st && !outcome.reply && !outcome.save,
            }
        }),
{
    reveal_words();
}

/// A message that deletes, loads or renames a profile, pins a channel or removes one does what
/// the command does with the members that it names; one that lacks a member, or whose new name
/// or label is nothing but white space, does nothing.
pub proof fn law_other_messages(st: StationView, message: Seq<char>, settings: Option<SettingsView>)
    ensures
        ({
            let r = st.after_request(request_in(message), settings);
            let cmd = json_text(message, "cmd"@);
            let nothing = (st, Outcome { reply: false, save: false });
            &&& cmd is None ==> r == nothing
            &&& cmd == Some("get_profiles"@) ==> r == (st, Outcome { reply: true, save: false })
            &&& cmd == Some("delete_profile"@) ==> r == match json_text(message, "name"@) {
                Some(name) => st.after(CommandView::DeleteProfile { name }),
                None => nothing,
            }
            &&& cmd == Some("load_profile"@) ==> r == match json_text(message, "name"@) {
                Some(name) => st.after(CommandView::LoadProfile { name }),
                None => nothing,
            }
            &&& cmd == Some("rename_profile"@) ==> r == match (
                json_text(message, "old_name"@),
                json_text(message, "new_name"@),
            ) {
                (Some(old_name), Some(name)) if trimmed(name).len() > 0 => st.after(
                    CommandView::RenameProfile { old_name, new_name: trimmed(name) },
                ),
                _ => nothing,
            }
            &&& cmd == Some("add_marker"@) ==> r == match (
                json_number(message, "freq_hz"@),
                json_text(message, "label"@),
            ) {
                (Some(n), Some(label)) if trimmed(label).len() > 0 => st.after(
                    CommandView::AddMarker {
                        freq_hz: double_to_integer(n) as i64,
                        label: trimmed(label),
                    },
                ),
                _ => nothing,
            }
            &&& cmd == Some("remove_marker"@) ==> r == match json_number(message, "freq_hz"@) {
                Some(n) => st.after(
                    CommandView::RemoveMarker { freq_hz: double_to_integer(n) as i64 },
                ),
                None => nothing,
            }
        }),
{
    reveal_words();
}

/// A message whose word is no command does nothing.
pub proof fn law_unknown_word(
    st: StationView,
    message: Seq<char>,
    settings: Option<SettingsView>,
    word: Seq<char>,
)
    requires
        json_text(message, "cmd"@) == Some(word),
        word != "get_profiles"@ && word != "add_marker"@ && word != "remove_marker"@ && word
            != "set_demod"@ && word != "apply"@ && word != "select_profile"@ && word
            != "save_profile"@ && word != "delete_profile"@ && word != "load_profile"@ && word
            != "rename_profile"@,
    ensures
        st.after_request(request_in(message), settings) == (
            st,
            Outcome { reply: false, save: false },
        ),
{
}

/// The words of the commands differ.
proof fn reveal_words()
    ensures
        "get_profiles"@.len() == 12 && "get_profiles"@[0] == 'g',
        "add_marker"@.len() == 10 && "add_marker"@[0] == 'a',
        "remove_marker"@.len() == 13 && "remove_marker"@[0] == 'r',
        "set_demod"@.len() == 9,
        "apply"@.len() == 5,
        "select_profile"@.len() == 14 && "select_profile"@[0] == 's',
        "save_profile"@.len() == 12 && "save_profile"@[0] == 's',
        "delete_profile"@.len() == 14 && "delete_profile"@[0] == 'd',
        "load_profile"@.len() == 12 && "load_profile"@[0] == 'l',
        "rename_profile"@.len() == 14 && "rename_profile"@[0] == 'r',
        "NBFM"@.len() == 4 && "NBFM"@[0] == 'N',
        "WBFM"@.len() == 4 && "WBFM"@[0] == 'W',
        "AM"@.len() == 2,
{
    reveal_strlit("get_profiles");
    reveal_strlit("add_marker");
    reveal_strlit("remove_marker");
    reveal_strlit("set_demod");
    reveal_strlit("apply");
    reveal_strlit("select_profile");
    reveal_strlit("save_profile");
    reveal_strlit("delete_profile");
    reveal_strlit("load_profile");
    reveal_strlit("rename_profile");
    reveal_strlit("NBFM");
    reveal_strlit("WBFM");
    reveal_strlit("AM");
}

/// At start the live settings are those of the profile in use, or the defaults where it is
/// missing: 869.525 MHz at 2 MSPS with a gain of 33.8 dB.
pub proof fn law_settings_in_use(store: StoreView)
    ensures
        store.profiles.contains_key(store.current) ==> store.current_settings()
            == store.profiles[store.current],
        !store.profiles.contains_key(store.current) ==> {
            let s = store.current_settings();
            &&& s.centre_freq == 869_525_000
            &&& s.sample_rate == 2_000_000
            &&& s.gain_tenths == 338
            &&& s.spec_min_db == 0xC28C_0000
            &&& s.spec_max_db == 0xC220_0000
            &&& s.wf_min_db == 0xC2A0_0000
            &&& s.wf_max_db == 0xC248_0000
            &&& s.squelch_db == 0xC2C8_0000
            &&& s.markers.len() == 0
            &&& s.demod_mode is None
        },
{
}

} // verus!
