//! The named profiles and the one in use.

use crate::settings::{default_settings, Settings, SettingsView};
use crate::text::{law_order_is_strict, law_order_is_total, law_order_is_transitive, precedes, text_precedes};
use vstd::prelude::*;
use vstd::string::*;

verus! {

/// A named set of parameters.
#[derive(Debug)]
pub struct Profile {
    pub name: String,
    pub settings: Settings,
}

/// The stored profiles and the name of the one in use.
///
/// No two profiles have the same name.
#[derive(Debug)]
pub struct ProfileStore {
    pub(crate) current: String,
    pub(crate) profiles: Vec<Profile>,
}

/// What a `ProfileStore` holds.
#[verifier::ext_equal]
pub struct StoreView {
    pub current: Seq<char>,
    pub profiles: Map<Seq<char>, SettingsView>,
}

/// The profiles by name.
pub open spec fn profile_map(profiles: Seq<Profile>) -> Map<Seq<char>, SettingsView>
    decreases profiles.len(),
{
    if profiles.len() == 0 {
        Map::empty()
    } else {
        profile_map(profiles.drop_last()).insert(
            profiles.last().name@,
            profiles.last().settings@,
        )
    }
}

/// Whether the profiles have pairwise different names.
pub open spec fn distinct_names(profiles: Seq<Profile>) -> bool {
    forall|i: int, j: int|
        0 <= i < j < profiles.len() ==> (#[trigger] profiles[i]).name@ != (
        #[trigger] profiles[j]).name@
}

impl View for ProfileStore {
    type V = StoreView;

    closed spec fn view(&self) -> StoreView {
        StoreView { current: self.current@, profiles: profile_map(self.profiles@) }
    }
}

/// `name` is the first of the names in `profiles`.
pub open spec fn is_first_name(profiles: Map<Seq<char>, SettingsView>, name: Seq<char>) -> bool {
    &&& profiles.contains_key(name)
    &&& forall|other: Seq<char>| #[trigger]
        profiles.contains_key(other) ==> other == name || precedes(name, other)
}

/// The first of the names in `profiles`.
pub open spec fn first_name(profiles: Map<Seq<char>, SettingsView>) -> Seq<char> {
    choose|name: Seq<char>| is_first_name(profiles, name)
}

impl StoreView {
    /// The profile in use is among the stored ones.
    pub open spec fn consistent(self) -> bool {
        self.profiles.contains_key(self.current)
    }

    /// The settings in use: those of the profile in use, or the defaults where it is missing.
    pub open spec fn current_settings(self) -> SettingsView {
        if self.profiles.contains_key(self.current) {
            self.profiles[self.current]
        } else {
            default_settings()
        }
    }

    /// This store with `settings` in the profile in use.
    pub open spec fn with_current_settings(self, settings: SettingsView) -> StoreView {
        StoreView { profiles: self.profiles.insert(self.current, settings), ..self }
    }
}

/// The store before anything was saved: one profile, "Default", with the default settings.
pub open spec fn default_store() -> StoreView {
    StoreView {
        current: "Default"@,
        profiles: Map::empty().insert("Default"@, default_settings()),
    }
}

proof fn lemma_profile_at(profiles: Seq<Profile>, i: int)
    requires
        distinct_names(profiles),
        0 <= i < profiles.len(),
    ensures
        profile_map(profiles).contains_key(profiles[i].name@),
        profile_map(profiles)[profiles[i].name@] == profiles[i].settings@,
    decreases profiles.len(),
{
    if i < profiles.len() - 1 {
        assert(profiles.drop_last()[i] == profiles[i]);
        lemma_profile_at(profiles.drop_last(), i);
    }
}

proof fn lemma_profile_index(profiles: Seq<Profile>, name: Seq<char>) -> (i: int)
    requires
        profile_map(profiles).contains_key(name),
    ensures
        0 <= i < profiles.len(),
        profiles[i].name@ == name,
    decreases profiles.len(),
{
    if profiles.last().name@ == name {
        profiles.len() - 1
    } else {
        lemma_profile_index(profiles.drop_last(), name)
    }
}

proof fn lemma_profile_count(profiles: Seq<Profile>)
    requires
        distinct_names(profiles),
    ensures
        profile_map(profiles).dom().finite(),
        profile_map(profiles).len() == profiles.len(),
    decreases profiles.len(),
{
    if profiles.len() > 0 {
        let rest = profiles.drop_last();
        lemma_profile_count(rest);
        if profile_map(rest).contains_key(profiles.last().name@) {
            let i = lemma_profile_index(rest, profiles.last().name@);
            assert(profiles[i].name@ == profiles.last().name@);
        }
    }
}

/// Profiles with different names hold the map `m` when each of them is in `m` and every name
/// in `m` is that of one of them.
proof fn lemma_map_is(profiles: Seq<Profile>, m: Map<Seq<char>, SettingsView>)
    requires
        distinct_names(profiles),
        forall|i: int|
            0 <= i < profiles.len() ==> m.contains_key((#[trigger] profiles[i]).name@)
                && m[profiles[i].name@] == profiles[i].settings@,
        forall|name: Seq<char>| #[trigger]
            m.contains_key(name) ==> exists|i: int|
                0 <= i < profiles.len() && (#[trigger] profiles[i]).name@ == name,
    ensures
        profile_map(profiles) == m,
{
    let p = profile_map(profiles);
    assert forall|name: Seq<char>|
        #![trigger p.dom().contains(name)]
        #![trigger m.dom().contains(name)]
        p.dom().contains(name) == m.dom().contains(name) && (p.dom().contains(name) ==> p[name]
            == m[name]) by {
        if p.contains_key(name) {
            let i = lemma_profile_index(profiles, name);
            lemma_profile_at(profiles, i);
        }
        if m.contains_key(name) {
            let i = choose|i: int|
                0 <= i < profiles.len() && (#[trigger] profiles[i]).name@ == name;
            lemma_profile_at(profiles, i);
        }
    }
    assert(p =~= m);
}

impl ProfileStore {
    /// No two profiles have the same name.
    pub closed spec fn wf(&self) -> bool {
        distinct_names(self.profiles@)
    }

    /// The profiles are finitely many.
    pub proof fn lemma_finite(&self)
        requires
            self.wf(),
        ensures
            self@.profiles.dom().finite(),
    {
        lemma_profile_count(self.profiles@);
    }

    /// A store without profiles whose profile in use is to be `current`.
    pub fn new(current: String) -> (r: Self)
        ensures
            r.wf(),
            r@.current == current@,
            r@.profiles == Map::<Seq<char>, SettingsView>::empty(),
    {
        ProfileStore { current, profiles: Vec::new() }
    }

    /// The place of the profile `name`.
    fn find(&self, name: &String) -> (r: Option<usize>)
        requires
            self.wf(),
        ensures
            r is Some == self@.profiles.contains_key(name@),
            r matches Some(i) ==> i < self.profiles@.len() && self.profiles@[i as int].name@
                == name@,
    {
        let mut i: usize = 0;
        while i < self.profiles.len()
            invariant
                self.wf(),
                i <= self.profiles@.len(),
                forall|j: int| 0 <= j < i ==> (#[trigger] self.profiles@[j]).name@ != name@,
            decreases self.profiles.len() - i,
        {
            if self.profiles[i].name == *name {
                proof {
                    lemma_profile_at(self.profiles@, i as int);
                }
                return Some(i);
            }
            i += 1;
        }
        proof {
            if self@.profiles.contains_key(name@) {
                let j = lemma_profile_index(self.profiles@, name@);
            }
        }
        None
    }

    /// The name of the profile in use.
    pub fn current(&self) -> (r: &String)
        ensures
            r@ == self@.current,
    {
        &self.current
    }

    /// The number of profiles.
    pub fn len(&self) -> (r: usize)
        requires
            self.wf(),
        ensures
            r == self@.profiles.len(),
    {
        proof {
            lemma_profile_count(self.profiles@);
        }
        self.profiles.len()
    }

    /// The profiles, in no particular order.
    pub fn profiles(&self) -> (r: &Vec<Profile>)
        requires
            self.wf(),
        ensures
            distinct_names(r@),
            profile_map(r@) == self@.profiles,
    {
        &self.profiles
    }

    /// Whether there is a profile `name`.
    pub fn contains(&self, name: &String) -> (r: bool)
        requires
            self.wf(),
        ensures
            r == self@.profiles.contains_key(name@),
    {
        self.find(name).is_some()
    }

    /// The settings of the profile `name`.
    pub fn get(&self, name: &String) -> (r: Option<&Settings>)
        requires
            self.wf(),
        ensures
            r is Some == self@.profiles.contains_key(name@),
            r matches Some(s) ==> s@ == self@.profiles[name@],
    {
        match self.find(name) {
            Some(i) => {
                proof {
                    lemma_profile_at(self.profiles@, i as int);
                }
                Some(&self.profiles[i].settings)
            },
            None => None,
        }
    }

    /// A copy of the settings in use.
    pub fn current_settings(&self) -> (r: Settings)
        requires
            self.wf(),
        ensures
            r@ == self@.current_settings(),
    {
        match self.get(&self.current) {
            Some(s) => s.clone(),
            None => Settings::default(),
        }
    }

    /// Makes `name` the name of the profile in use.
    pub fn set_current(&mut self, name: String)
        requires
            old(self).wf(),
        ensures
            final(self).wf(),
            final(self)@ == (StoreView { current: name@, ..old(self)@ }),
    {
        self.current = name;
    }

    /// Stores `settings` under `name`, in place of what was there.
    pub fn insert(&mut self, name: String, settings: Settings)
        requires
            old(self).wf(),
        ensures
            final(self).wf(),
            final(self)@ == (StoreView {
                profiles: old(self)@.profiles.insert(name@, settings@),
                ..old(self)@
            }),
    {
        let ghost before = self.profiles@;
        let ghost target = profile_map(before).insert(name@, settings@);
        let ghost profile = Profile { name, settings };
        match self.find(&name) {
            Some(i) => {
                self.profiles[i] = Profile { name, settings };
                proof {
                    let after = self.profiles@;
                    assert(after =~= before.update(i as int, profile));
                    assert forall|j: int| 0 <= j < after.len() implies target.contains_key(
                        (#[trigger] after[j]).name@,
                    ) && target[after[j].name@] == after[j].settings@ by {
                        lemma_profile_at(before, j);
                    }
                    assert forall|n: Seq<char>| #[trigger] target.contains_key(n) implies exists|
                        j: int,
                    |
                        0 <= j < after.len() && (#[trigger] after[j]).name@ == n by {
                        if n == profile.name@ {
                            assert(after[i as int].name@ == n);
                        } else {
                            let j = lemma_profile_index(before, n);
                            assert(after[j].name@ == n);
                        }
                    }
                    lemma_map_is(after, target);
                }
            },
            None => {
                self.profiles.push(Profile { name, settings });
                proof {
                    let after = self.profiles@;
                    assert(after.drop_last() =~= before);
                    assert forall|i: int, j: int| 0 <= i < j < after.len() implies (
                    #[trigger] after[i]).name@ != (#[trigger] after[j]).name@ by {
                        lemma_profile_at(before, i);
                    }
                }
            },
        }
    }

    /// Removes the profile `name` and hands its settings out.
    pub fn remove(&mut self, name: &String) -> (r: Option<Settings>)
        requires
            old(self).wf(),
        ensures
            final(self).wf(),
            r is Some == old(self)@.profiles.contains_key(name@),
            r matches Some(s) ==> s@ == old(self)@.profiles[name@],
            final(self)@ == (StoreView {
                profiles: old(self)@.profiles.remove(name@),
                ..old(self)@
            }),
    {
        let ghost before = self.profiles@;
        let ghost target = profile_map(before).remove(name@);
        match self.find(name) {
            Some(i) => {
                proof {
                    lemma_profile_at(before, i as int);
                }
                let removed = self.profiles.remove(i);
                proof {
                    let after = self.profiles@;
                    assert(after =~= before.remove(i as int));
                    assert forall|j: int| 0 <= j < after.len() implies target.contains_key(
                        (#[trigger] after[j]).name@,
                    ) && target[after[j].name@] == after[j].settings@ by {
                        lemma_profile_at(before, if j < i { j } else { j + 1 });
                    }
                    assert forall|n: Seq<char>| #[trigger] target.contains_key(n) implies exists|
                        j: int,
                    |
                        0 <= j < after.len() && (#[trigger] after[j]).name@ == n by {
                        let j = lemma_profile_index(before, n);
                        assert(after[if j < i { j } else { j - 1 }].name@ == n);
                    }
                    lemma_map_is(after, target);
                }
                Some(removed.settings)
            },
            None => {
                assert(target =~= profile_map(before));
                None
            },
        }
    }

    /// The first of the profile names.
    pub fn first_name(&self) -> (r: &String)
        requires
            self.wf(),
            self@.profiles.len() > 0,
        ensures
            is_first_name(self@.profiles, r@),
            r@ == first_name(self@.profiles),
    {
        proof {
            lemma_profile_count(self.profiles@);
        }
        let mut best: usize = 0;
        let mut i: usize = 1;
        while i < self.profiles.len()
            invariant
                self.wf(),
                best < i <= self.profiles@.len(),
                forall|j: int|
                    0 <= j < i ==> (#[trigger] self.profiles@[j]).name@
                        == self.profiles@[best as int].name@ || precedes(
                        self.profiles@[best as int].name@,
                        self.profiles@[j].name@,
                    ),
            decreases self.profiles.len() - i,
        {
            let ghost was = best;
            if text_precedes(self.profiles[i].name.as_str(), self.profiles[best].name.as_str()) {
                best = i;
            }
            proof {
                let new = self.profiles@[i as int].name@;
                let kept = self.profiles@[was as int].name@;
                law_order_is_total(kept, new);
                assert forall|j: int| 0 <= j < i + 1 implies (#[trigger] self.profiles@[j]).name@
                    == self.profiles@[best as int].name@ || precedes(
                    self.profiles@[best as int].name@,
                    self.profiles@[j].name@,
                ) by {
                    if best == i && j < i && self.profiles@[j].name@ != kept {
                        law_order_is_transitive(new, kept, self.profiles@[j].name@);
                    }
                }
            }
            i += 1;
        }
        let r = &self.profiles[best].name;
        proof {
            lemma_profile_at(self.profiles@, best as int);
            assert forall|other: Seq<char>| #[trigger]
                self@.profiles.contains_key(other) implies other == r@ || precedes(r@, other) by {
                let j = lemma_profile_index(self.profiles@, other);
                assert(self.profiles@[j].name@ == other);
            }
            lemma_first_name_unique(self@.profiles, r@, first_name(self@.profiles));
        }
        r
    }

    /// Pins a channel in the profile in use; `false` when that profile is missing.
    pub fn add_marker(&mut self, freq_hz: i64, label: String) -> (r: bool)
        requires
            old(self).wf(),
        ensures
            final(self).wf(),
            r == old(self)@.consistent(),
            final(self)@ == (if r {
                old(self)@.with_current_settings(
                    old(self)@.current_settings().with_marker(freq_hz, label@),
                )
            } else {
                old(self)@
            }),
    {
        let name = self.current.clone();
        match self.remove(&name) {
            Some(mut settings) => {
                settings.add_marker(freq_hz, label);
                self.insert(name, settings);
                assert(self@.profiles =~= old(self)@.profiles.insert(name@, settings@));
                true
            },
            None => {
                assert(self@.profiles =~= old(self)@.profiles);
                false
            },
        }
    }

    /// Removes a pinned channel from the profile in use; `false` when that profile is missing.
    pub fn remove_marker(&mut self, freq_hz: i64) -> (r: bool)
        requires
            old(self).wf(),
        ensures
            final(self).wf(),
            r == old(self)@.consistent(),
            final(self)@ == (if r {
                old(self)@.with_current_settings(
                    old(self)@.current_settings().without_marker(freq_hz),
                )
            } else {
                old(self)@
            }),
    {
        let name = self.current.clone();
        match self.remove(&name) {
            Some(mut settings) => {
                settings.remove_marker(freq_hz);
                self.insert(name, settings);
                assert(self@.profiles =~= old(self)@.profiles.insert(name@, settings@));
                true
            },
            None => {
                assert(self@.profiles =~= old(self)@.profiles);
                false
            },
        }
    }
}

impl Default for ProfileStore {
    fn default() -> (r: Self)
        ensures
            r.wf(),
            r@ == default_store(),
    {
        let mut r = ProfileStore::new("Default".to_owned());
        r.insert("Default".to_owned(), Settings::default());
        r
    }
}

/// The store before anything was saved has its profile in use.
pub proof fn law_default_store()
    ensures
        default_store().consistent(),
        default_store().profiles.dom().finite(),
        default_store().current_settings() == default_settings(),
        default_store().current == "Default"@,
        forall|name: Seq<char>| #[trigger]
            default_store().profiles.contains_key(name) <==> name == "Default"@,
{
}

/// There is at most one first name.
proof fn lemma_first_name_unique(
    profiles: Map<Seq<char>, SettingsView>,
    a: Seq<char>,
    b: Seq<char>,
)
    requires
        is_first_name(profiles, a),
        is_first_name(profiles, b),
    ensures
        a == b,
{
    law_order_is_strict(a, b);
}

/// Profiles that are there, finitely many, have a first name.
pub proof fn law_first_name(profiles: Map<Seq<char>, SettingsView>)
    requires
        profiles.dom().finite(),
        profiles.len() > 0,
    ensures
        is_first_name(profiles, first_name(profiles)),
    decreases profiles.len(),
{
    let name = profiles.dom().choose();
    let rest = profiles.remove(name);
    if rest.len() == 0 {
        assert forall|other: Seq<char>| #[trigger] profiles.contains_key(other) implies other
            == name by {
            if other != name {
                assert(rest.dom().contains(other));
                assert(rest.dom() =~= Set::empty());
            }
        }
        assert(is_first_name(profiles, name));
    } else {
        law_first_name(rest);
        let first = first_name(rest);
        law_order_is_total(name, first);
        assert(name != first);
        let best = if precedes(name, first) { name } else { first };
        assert forall|other: Seq<char>| #[trigger] profiles.contains_key(other) implies other
            == best || precedes(best, other) by {
            if other != name {
                assert(rest.contains_key(other));
                if best == name && other != first {
                    law_order_is_transitive(name, first, other);
                }
            }
        }
        assert(is_first_name(profiles, best));
    }
}

/// Profiles with different names are looked up by their names: each is found under its own, and
/// there are as many names as profiles.
pub proof fn law_profiles_by_name(profiles: Seq<Profile>, i: int)
    requires
        distinct_names(profiles),
        0 <= i < profiles.len(),
    ensures
        profile_map(profiles).contains_key(profiles[i].name@),
        profile_map(profiles)[profiles[i].name@] == profiles[i].settings@,
        profile_map(profiles).dom().finite(),
        profile_map(profiles).len() == profiles.len(),
{
    lemma_profile_at(profiles, i);
    lemma_profile_count(profiles);
}

} // verus!
