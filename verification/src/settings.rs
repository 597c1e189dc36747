//! The parameters of the receiver and of its display, as stored in a profile.
//!
//! Levels in dBFS are single-precision values, carried as their IEEE 754 bit patterns: the
//! settings are stored, compared and handed on, never computed with.

use vstd::prelude::*;
use vstd::string::*;

verus! {

/// The bit pattern of -40 dB.
pub const MINUS_40_DB: u32 = 0xC220_0000;

/// The bit pattern of -50 dB.
pub const MINUS_50_DB: u32 = 0xC248_0000;

/// The bit pattern of -70 dB.
pub const MINUS_70_DB: u32 = 0xC28C_0000;

/// The bit pattern of -80 dB.
pub const MINUS_80_DB: u32 = 0xC2A0_0000;

/// The bit pattern of -100 dB.
pub const MINUS_100_DB: u32 = 0xC2C8_0000;

/// A pinned channel.
#[derive(Debug)]
pub struct Marker {
    /// Absolute frequency in Hz.
    pub freq_hz: i64,
    pub label: String,
}

/// What a `Marker` holds.
#[verifier::ext_equal]
pub struct MarkerView {
    pub freq_hz: i64,
    pub label: Seq<char>,
}

impl View for Marker {
    type V = MarkerView;

    open spec fn view(&self) -> MarkerView {
        MarkerView { freq_hz: self.freq_hz, label: self.label@ }
    }
}

impl Clone for Marker {
    fn clone(&self) -> (r: Self)
        ensures
            r@ == self@,
    {
        Marker { freq_hz: self.freq_hz, label: self.label.clone() }
    }
}

/// What `markers` hold, in their order.
pub open spec fn marker_views(markers: Seq<Marker>) -> Seq<MarkerView> {
    Seq::new(markers.len(), |i: int| markers[i]@)
}

/// What an optional text holds.
pub open spec fn text_view(t: Option<String>) -> Option<Seq<char>> {
    match t {
        Some(s) => Some(s@),
        None => None,
    }
}

/// The parameters that one profile stores.
#[derive(Debug)]
pub struct Settings {
    /// Centre frequency in Hz.
    pub centre_freq: u32,
    /// Sample rate in Hz.
    pub sample_rate: u32,
    /// Tuner gain in tenths of a dB.
    pub gain_tenths: i32,
    /// Lower bound of the spectrum display, bit pattern of a level in dBFS.
    pub spec_min_db: u32,
    /// Upper bound of the spectrum display, bit pattern of a level in dBFS.
    pub spec_max_db: u32,
    /// Lower bound of the waterfall display, bit pattern of a level in dBFS.
    pub wf_min_db: u32,
    /// Upper bound of the waterfall display, bit pattern of a level in dBFS.
    pub wf_max_db: u32,
    /// Squelch threshold, bit pattern of a level in dBFS.
    pub squelch_db: u32,
    /// The pinned channels.
    pub markers: Vec<Marker>,
    /// The mode last chosen in the user interface: "NBFM", "WBFM", "AM" or none.
    pub demod_mode: Option<String>,
}

/// What `Settings` hold.
#[verifier::ext_equal]
pub struct SettingsView {
    pub centre_freq: u32,
    pub sample_rate: u32,
    pub gain_tenths: i32,
    pub spec_min_db: u32,
    pub spec_max_db: u32,
    pub wf_min_db: u32,
    pub wf_max_db: u32,
    pub squelch_db: u32,
    pub markers: Seq<MarkerView>,
    pub demod_mode: Option<Seq<char>>,
}

impl View for Settings {
    type V = SettingsView;

    open spec fn view(&self) -> SettingsView {
        SettingsView {
            centre_freq: self.centre_freq,
            sample_rate: self.sample_rate,
            gain_tenths: self.gain_tenths,
            spec_min_db: self.spec_min_db,
            spec_max_db: self.spec_max_db,
            wf_min_db: self.wf_min_db,
            wf_max_db: self.wf_max_db,
            squelch_db: self.squelch_db,
            markers: marker_views(self.markers@),
            demod_mode: text_view(self.demod_mode),
        }
    }
}

/// The squelch threshold of a profile that names none: -100 dB.
pub fn default_squelch() -> (r: u32)
    ensures
        r == MINUS_100_DB,
{
    MINUS_100_DB
}

/// The settings of a receiver that has no stored profile.
pub open spec fn default_settings() -> SettingsView {
    SettingsView {
        centre_freq: 869_525_000,
        sample_rate: 2_000_000,
        gain_tenths: 338,
        spec_min_db: MINUS_70_DB,
        spec_max_db: MINUS_40_DB,
        wf_min_db: MINUS_80_DB,
        wf_max_db: MINUS_50_DB,
        squelch_db: MINUS_100_DB,
        markers: Seq::empty(),
        demod_mode: None,
    }
}

impl Default for Settings {
    fn default() -> (r: Self)
        ensures
            r@ == default_settings(),
    {
        let r = Settings {
            centre_freq: 869_525_000,
            sample_rate: 2_000_000,
            gain_tenths: 338,
            spec_min_db: MINUS_70_DB,
            spec_max_db: MINUS_40_DB,
            wf_min_db: MINUS_80_DB,
            wf_max_db: MINUS_50_DB,
            squelch_db: default_squelch(),
            markers: Vec::new(),
            demod_mode: None,
        };
        assert(r@.markers =~= Seq::<MarkerView>::empty());
        r
    }
}

/// A copy of `markers`.
fn copy_markers(markers: &Vec<Marker>) -> (r: Vec<Marker>)
    ensures
        marker_views(r@) == marker_views(markers@),
{
    let mut r: Vec<Marker> = Vec::new();
    let mut i: usize = 0;
    while i < markers.len()
        invariant
            i <= markers@.len(),
            r@.len() == i,
            forall|j: int| 0 <= j < i ==> (#[trigger] r@[j])@ == markers@[j]@,
        decreases markers.len() - i,
    {
        r.push(markers[i].clone());
        i += 1;
    }
    assert(marker_views(r@) =~= marker_views(markers@));
    r
}

impl Clone for Settings {
    fn clone(&self) -> (r: Self)
        ensures
            r@ == self@,
    {
        let demod_mode = match &self.demod_mode {
            Some(mode) => Some(mode.clone()),
            None => None,
        };
        Settings {
            centre_freq: self.centre_freq,
            sample_rate: self.sample_rate,
            gain_tenths: self.gain_tenths,
            spec_min_db: self.spec_min_db,
            spec_max_db: self.spec_max_db,
            wf_min_db: self.wf_min_db,
            wf_max_db: self.wf_max_db,
            squelch_db: self.squelch_db,
            markers: copy_markers(&self.markers),
            demod_mode,
        }
    }
}

impl SettingsView {
    /// These settings without the markers at `freq_hz`.
    pub open spec fn without_marker(self, freq_hz: i64) -> SettingsView {
        SettingsView {
            markers: self.markers.filter(|m: MarkerView| m.freq_hz != freq_hz),
            ..self
        }
    }

    /// These settings with one marker at `freq_hz`, which stands last.
    pub open spec fn with_marker(self, freq_hz: i64, label: Seq<char>) -> SettingsView {
        SettingsView {
            markers: self.without_marker(freq_hz).markers.push(MarkerView { freq_hz, label }),
            ..self
        }
    }
}

impl Settings {
    /// Removes the markers at `freq_hz`; the others keep their order.
    pub fn remove_marker(&mut self, freq_hz: i64)
        ensures
            final(self)@ == old(self)@.without_marker(freq_hz),
    {
        let ghost keep = |m: MarkerView| m.freq_hz != freq_hz;
        let ghost all = marker_views(self.markers@);
        let mut kept: Vec<Marker> = Vec::new();
        let mut i: usize = 0;
        assert(all.take(0).filter(keep) =~= Seq::<MarkerView>::empty()) by {
            reveal(Seq::filter);
        }
        assert(marker_views(kept@) =~= Seq::<MarkerView>::empty());
        while i < self.markers.len()
            invariant
                *self == *old(self),
                all == marker_views(self.markers@),
                keep == (|m: MarkerView| m.freq_hz != freq_hz),
                i <= self.markers@.len(),
                marker_views(kept@) == all.take(i as int).filter(keep),
            decreases self.markers.len() - i,
        {
            let ghost before = kept@;
            proof {
                reveal(Seq::filter);
                assert(all.take(i + 1).drop_last() =~= all.take(i as int));
            }
            if self.markers[i].freq_hz != freq_hz {
                kept.push(self.markers[i].clone());
                assert(marker_views(kept@) =~= marker_views(before).push(all[i as int]));
            }
            i += 1;
        }
        assert(all.take(all.len() as int) =~= all);
        self.markers = kept;
    }

    /// Pins a channel at `freq_hz` in place of any that was there.
    pub fn add_marker(&mut self, freq_hz: i64, label: String)
        ensures
            final(self)@ == old(self)@.with_marker(freq_hz, label@),
    {
        self.remove_marker(freq_hz);
        let ghost before = self.markers@;
        let ghost marker = Marker { freq_hz, label };
        self.markers.push(Marker { freq_hz, label });
        assert(marker_views(self.markers@) =~= marker_views(before).push(marker@));
    }
}

/// A channel pinned at `freq_hz` is there once, with its label, and the markers elsewhere
/// are those that were there before.
pub proof fn law_pinned_once(s: SettingsView, freq_hz: i64, label: Seq<char>)
    ensures
        s.with_marker(freq_hz, label).markers.filter(|m: MarkerView| m.freq_hz == freq_hz)
            == seq![MarkerView { freq_hz, label }],
        s.with_marker(freq_hz, label).without_marker(freq_hz) == s.without_marker(freq_hz),
{
    let others = s.without_marker(freq_hz).markers;
    let here = |m: MarkerView| m.freq_hz == freq_hz;
    let elsewhere = |m: MarkerView| m.freq_hz != freq_hz;
    let marker = MarkerView { freq_hz, label };
    reveal(Seq::filter);
    assert(others.push(marker).drop_last() =~= others);
    assert(others.filter(here) =~= Seq::<MarkerView>::empty()) by {
        assert forall|i: int| 0 <= i < others.len() implies !here(#[trigger] others[i]) by {
            s.markers.lemma_filter_pred(elsewhere, i);
        }
        lemma_filter_none(others, here);
    }
    assert(others.filter(elsewhere) =~= others) by {
        assert forall|i: int| 0 <= i < others.len() implies elsewhere(#[trigger] others[i]) by {
            s.markers.lemma_filter_pred(elsewhere, i);
        }
        lemma_filter_all(others, elsewhere);
    }
    assert(s.with_marker(freq_hz, label).markers.filter(here) =~= seq![marker]);
    assert(s.with_marker(freq_hz, label).without_marker(freq_hz) =~= s.without_marker(freq_hz));
}

proof fn lemma_filter_none(s: Seq<MarkerView>, keep: spec_fn(MarkerView) -> bool)
    requires
        forall|i: int| 0 <= i < s.len() ==> !keep(#[trigger] s[i]),
    ensures
        s.filter(keep) == Seq::<MarkerView>::empty(),
    decreases s.len(),
{
    reveal(Seq::filter);
    if s.len() > 0 {
        lemma_filter_none(s.drop_last(), keep);
    }
}

proof fn lemma_filter_all(s: Seq<MarkerView>, keep: spec_fn(MarkerView) -> bool)
    requires
        forall|i: int| 0 <= i < s.len() ==> keep(#[trigger] s[i]),
    ensures
        s.filter(keep) == s,
    decreases s.len(),
{
    reveal(Seq::filter);
    if s.len() > 0 {
        lemma_filter_all(s.drop_last(), keep);
        assert(s.drop_last().push(s.last()) =~= s);
    }
}

/// `kept` are the markers of `markers` that are not at `freq_hz`, in their order: `places` tells
/// where each of them stood.
pub open spec fn stood_at(
    markers: Seq<MarkerView>,
    freq_hz: i64,
    kept: Seq<MarkerView>,
    places: Seq<int>,
) -> bool {
    &&& places.len() == kept.len()
    &&& forall|k: int|
        0 <= k < kept.len() ==> 0 <= #[trigger] places[k] < markers.len() && kept[k]
            == markers[places[k]] && kept[k].freq_hz != freq_hz
    &&& forall|j: int, k: int|
        0 <= j < k < kept.len() ==> #[trigger] places[j] < #[trigger] places[k]
    &&& forall|i: int|
        0 <= i < markers.len() && (#[trigger] markers[i]).freq_hz != freq_hz ==> places.contains(i)
}

/// `kept` are the markers of `markers` that are not at `freq_hz`, in their order.
pub open spec fn are_others(
    markers: Seq<MarkerView>,
    freq_hz: i64,
    kept: Seq<MarkerView>,
) -> bool {
    exists|places: Seq<int>| #[trigger] stood_at(markers, freq_hz, kept, places)
}

/// Where the markers that are left stood.
proof fn lemma_places(markers: Seq<MarkerView>, freq_hz: i64) -> (places: Seq<int>)
    ensures
        stood_at(
            markers,
            freq_hz,
            markers.filter(|m: MarkerView| m.freq_hz != freq_hz),
            places,
        ),
    decreases markers.len(),
{
    let keep = |m: MarkerView| m.freq_hz != freq_hz;
    reveal(Seq::filter);
    if markers.len() == 0 {
        Seq::empty()
    } else {
        let rest = markers.drop_last();
        let last = markers.len() - 1;
        let before = lemma_places(rest, freq_hz);
        assert(markers.filter(keep) == (if keep(markers.last()) {
            rest.filter(keep).push(markers.last())
        } else {
            rest.filter(keep)
        }));
        let places = if keep(markers.last()) {
            before.push(last)
        } else {
            before
        };
        assert forall|i: int|
            0 <= i < markers.len() && (
            #[trigger] markers[i]).freq_hz != freq_hz implies places.contains(i) by {
            if i < last {
                assert(rest[i] == markers[i]);
                assert(before.contains(i));
                let k = before.index_of(i);
                assert(places[k] == i);
            } else {
                assert(places[places.len() - 1] == i);
            }
        }
        places
    }
}

/// Removing the markers at a frequency leaves all others, in their order.
pub proof fn law_others_are_kept(s: SettingsView, freq_hz: i64)
    ensures
        are_others(s.markers, freq_hz, s.without_marker(freq_hz).markers),
{
    let places = lemma_places(s.markers, freq_hz);
    assert(stood_at(s.markers, freq_hz, s.without_marker(freq_hz).markers, places));
}

} // verus!
