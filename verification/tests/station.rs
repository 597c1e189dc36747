use ferrosdr::command::{Outcome, Request};
use ferrosdr::config::{same_mode, DemodConfig, DemodMode, MINUS_100, MINUS_70, ZERO};
use ferrosdr::settings::{default_squelch, Marker, Settings};
use ferrosdr::station::Station;
use ferrosdr::store::ProfileStore;

const QUIET: Outcome = Outcome { reply: false, save: false };
const ANSWERED: Outcome = Outcome { reply: true, save: false };
const SAVED: Outcome = Outcome { reply: true, save: true };

fn at(centre_freq: u32) -> Settings {
    let mut s = Settings::default();
    s.centre_freq = centre_freq;
    s
}

fn station() -> Station {
    let mut store = ProfileStore::new("PMR".to_string());
    store.insert("PMR".to_string(), at(446_000_000));
    store.insert("Airband".to_string(), at(125_000_000));
    store.insert("Broadcast".to_string(), at(98_000_000));
    Station::new(store)
}

fn name(s: &str) -> String {
    s.to_string()
}

fn names(st: &Station) -> Vec<String> {
    let mut v: Vec<String> = st.store.profiles().iter().map(|p| p.name.clone()).collect();
    v.sort();
    v
}

fn freq(st: &Station, profile: &str) -> u32 {
    st.store.get(&name(profile)).unwrap().centre_freq
}

fn markers(st: &Station, profile: &str) -> Vec<(i64, String)> {
    st.store.get(&name(profile)).unwrap().markers.iter().map(|m| (m.freq_hz, m.label.clone())).collect()
}

fn empty_request() -> Request {
    Request {
        cmd: None,
        name: None,
        old_name: None,
        new_name: None,
        label: None,
        mode: None,
        freq_hz: None,
        offset_hz: None,
        squelch_db: None,
    }
}

#[test]
fn default_settings() {
    let s = Settings::default();
    assert_eq!(s.centre_freq, 869_525_000);
    assert_eq!(s.sample_rate, 2_000_000);
    assert_eq!(s.gain_tenths, 338);
    assert_eq!(f32::from_bits(s.spec_min_db), -70.0);
    assert_eq!(f32::from_bits(s.spec_max_db), -40.0);
    assert_eq!(f32::from_bits(s.wf_min_db), -80.0);
    assert_eq!(f32::from_bits(s.wf_max_db), -50.0);
    assert_eq!(f32::from_bits(s.squelch_db), -100.0);
    assert_eq!(f32::from_bits(default_squelch()), -100.0);
    assert!(s.markers.is_empty());
    assert!(s.demod_mode.is_none());
}

#[test]
fn default_choice_of_demodulator() {
    let d = DemodConfig::default();
    assert!(d.mode.is_none());
    assert_eq!(f64::from_bits(d.offset_hz), 0.0);
    assert_eq!(f64::from_bits(d.squelch_db), -70.0);
    assert_eq!(f64::from_bits(MINUS_100), -100.0);
    assert_eq!(f64::from_bits(MINUS_70), -70.0);
    assert_eq!(f64::from_bits(ZERO), 0.0);
    assert!(same_mode(None, None));
    assert!(same_mode(Some(DemodMode::AM), Some(DemodMode::AM)));
    assert!(!same_mode(Some(DemodMode::AM), Some(DemodMode::NBFM)));
    assert!(!same_mode(Some(DemodMode::AM), None));
}

#[test]
fn default_store() {
    let store = ProfileStore::default();
    assert_eq!(store.current(), "Default");
    assert_eq!(store.len(), 1);
    assert_eq!(store.get(&name("Default")).unwrap().centre_freq, 869_525_000);
    let st = Station::new(store);
    assert_eq!(st.settings.centre_freq, 869_525_000);
}

#[test]
fn settings_are_copied_whole() {
    let mut s = at(1);
    s.add_marker(5, name("five"));
    s.demod_mode = Some(name("AM"));
    let c = s.clone();
    assert_eq!(c.centre_freq, 1);
    assert_eq!(c.markers.len(), 1);
    assert_eq!(c.markers[0].label, "five");
    assert_eq!(c.demod_mode.as_deref(), Some("AM"));
    let m = Marker { freq_hz: 9, label: name("nine") };
    assert_eq!(m.clone().label, "nine");
}

#[test]
fn station_starts_with_the_profile_in_use() {
    assert_eq!(station().settings.centre_freq, 446_000_000);
    let dangling = Station::new(ProfileStore::new(name("gone")));
    assert_eq!(dangling.settings.centre_freq, 869_525_000);
}

#[test]
fn store_keeps_names_apart() {
    let mut store = ProfileStore::new(name("a"));
    store.insert(name("a"), at(1));
    store.insert(name("b"), at(2));
    store.insert(name("a"), at(3));
    assert_eq!(store.len(), 2);
    assert_eq!(store.get(&name("a")).unwrap().centre_freq, 3);
    assert_eq!(store.first_name(), "a");
    assert_eq!(store.remove(&name("a")).unwrap().centre_freq, 3);
    assert!(store.remove(&name("a")).is_none());
    assert!(!store.contains(&name("a")));
    assert!(store.contains(&name("b")));
    assert_eq!(store.first_name(), "b");
}

#[test]
fn get_profiles_only_answers() {
    let mut st = station();
    assert_eq!(st.process_command(r#"{"cmd":"get_profiles"}"#, None), ANSWERED);
    assert_eq!(names(&st), ["Airband", "Broadcast", "PMR"]);
    assert_eq!(st.store.current(), "PMR");
}

#[test]
fn messages_that_are_not_understood_are_ignored() {
    for text in [
        "",
        "{",
        "7",
        "[]",
        "null",
        r#""get_profiles""#,
        r#"{"cmd":7}"#,
        r#"{"cmd":"fly"}"#,
        r#"{"command":"get_profiles"}"#,
        r#"{"cmd":"GET_PROFILES"}"#,
        r#"{"cmd":"add_marker","label":"x"}"#,
        r#"{"cmd":"add_marker","freq_hz":1}"#,
        r#"{"cmd":"add_marker","freq_hz":1,"label":"  "}"#,
        r#"{"cmd":"add_marker","freq_hz":"1","label":"x"}"#,
        r#"{"cmd":"remove_marker"}"#,
        r#"{"cmd":"select_profile"}"#,
        r#"{"cmd":"select_profile","name":3}"#,
        r#"{"cmd":"delete_profile"}"#,
        r#"{"cmd":"load_profile"}"#,
        r#"{"cmd":"rename_profile","old_name":"PMR"}"#,
        r#"{"cmd":"rename_profile","new_name":"PMR"}"#,
        r#"{"cmd":"rename_profile","old_name":"PMR","new_name":" \t"}"#,
        r#"{"cmd":"apply"}"#,
        r#"{"cmd":"save_profile","name":"x"}"#,
    ] {
        let mut st = station();
        assert_eq!(st.process_command(text, None), QUIET, "{}", text);
        assert_eq!(names(&st), ["Airband", "Broadcast", "PMR"]);
        assert_eq!(st.store.current(), "PMR");
        assert_eq!(st.settings.centre_freq, 446_000_000);
        assert!(markers(&st, "PMR").is_empty());
    }
}

#[test]
fn saving_needs_a_name() {
    let mut st = station();
    assert_eq!(st.process_command(r#"{"cmd":"save_profile","name":"   "}"#, Some(at(5))), QUIET);
    assert_eq!(st.process_command(r#"{"cmd":"save_profile"}"#, Some(at(5))), QUIET);
    assert_eq!(st.settings.centre_freq, 446_000_000);
}

#[test]
fn set_demod_chooses_the_demodulator() {
    let mut st = station();
    let text = r#"{"cmd":"set_demod","mode":"NBFM","offset_hz":-12500.5,"squelch_db":-60.0}"#;
    assert_eq!(st.process_command(text, None), QUIET);
    assert_eq!(st.demod.mode, Some(DemodMode::NBFM));
    assert_eq!(f64::from_bits(st.demod.offset_hz), -12500.5);
    assert_eq!(f64::from_bits(st.demod.squelch_db), -60.0);
    st.process_command(r#"{"cmd":"set_demod","mode":"WBFM"}"#, None);
    assert_eq!(st.demod.mode, Some(DemodMode::WBFM));
    assert_eq!(f64::from_bits(st.demod.offset_hz), 0.0);
    assert_eq!(f64::from_bits(st.demod.squelch_db), -100.0);
    st.process_command(r#"{"cmd":"set_demod","mode":"AM","offset_hz":5}"#, None);
    assert_eq!(st.demod.mode, Some(DemodMode::AM));
    assert_eq!(f64::from_bits(st.demod.offset_hz), 5.0);
    st.process_command(r#"{"cmd":"set_demod","mode":"nbfm"}"#, None);
    assert_eq!(st.demod.mode, None);
    st.process_command(r#"{"cmd":"set_demod","mode":"AM"}"#, None);
    st.process_command(r#"{"cmd":"set_demod","mode":null,"offset_hz":0.0}"#, None);
    assert_eq!(st.demod.mode, None);
}

#[test]
fn apply_changes_the_live_settings_only() {
    let mut st = station();
    assert_eq!(st.process_command(r#"{"cmd":"apply","settings":{}}"#, Some(at(7))), QUIET);
    assert_eq!(st.settings.centre_freq, 7);
    assert_eq!(freq(&st, "PMR"), 446_000_000);
}

#[test]
fn select_profile_retunes() {
    let mut st = station();
    assert_eq!(st.process_command(r#"{"cmd":"select_profile","name":"Airband"}"#, None), ANSWERED);
    assert_eq!(st.store.current(), "Airband");
    assert_eq!(st.settings.centre_freq, 125_000_000);
    assert_eq!(st.process_command(r#"{"cmd":"select_profile","name":"gone"}"#, None), QUIET);
    assert_eq!(st.process_command(r#"{"cmd":"select_profile","name":" PMR "}"#, None), QUIET);
    assert_eq!(st.store.current(), "Airband");
}

#[test]
fn load_profile_keeps_the_live_settings() {
    let mut st = station();
    assert_eq!(st.process_command(r#"{"cmd":"load_profile","name":"Airband"}"#, None), SAVED);
    assert_eq!(st.store.current(), "Airband");
    assert_eq!(st.settings.centre_freq, 446_000_000);
    assert_eq!(st.process_command(r#"{"cmd":"load_profile","name":"gone"}"#, None), QUIET);
    assert_eq!(st.store.current(), "Airband");
}

#[test]
fn saved_settings_come_back() {
    let mut st = station();
    let text = r#"{"cmd":"save_profile","name":"  Marine ","settings":{}}"#;
    assert_eq!(st.process_command(text, Some(at(156_000_000))), SAVED);
    assert_eq!(st.store.current(), "Marine");
    assert_eq!(st.settings.centre_freq, 156_000_000);
    assert_eq!(names(&st), ["Airband", "Broadcast", "Marine", "PMR"]);
    st.process_command(r#"{"cmd":"apply"}"#, Some(at(1)));
    st.process_command(r#"{"cmd":"set_demod","mode":"AM"}"#, None);
    assert_eq!(st.process_command(r#"{"cmd":"select_profile","name":"Marine"}"#, None), ANSWERED);
    assert_eq!(st.settings.centre_freq, 156_000_000);
    st.process_command(r#"{"cmd":"save_profile","name":"Marine"}"#, Some(at(2)));
    assert_eq!(freq(&st, "Marine"), 2);
    assert_eq!(st.store.len(), 4);
}

#[test]
fn deleting_the_profile_in_use_falls_back_to_the_first() {
    let mut st = station();
    assert_eq!(st.process_command(r#"{"cmd":"delete_profile","name":"PMR"}"#, None), SAVED);
    assert_eq!(st.store.current(), "Airband");
    assert_eq!(names(&st), ["Airband", "Broadcast"]);
    assert_eq!(st.settings.centre_freq, 446_000_000);
    assert_eq!(st.process_command(r#"{"cmd":"delete_profile","name":"Broadcast"}"#, None), SAVED);
    assert_eq!(st.store.current(), "Airband");
    assert_eq!(st.process_command(r#"{"cmd":"delete_profile","name":"Airband"}"#, None), QUIET);
    assert_eq!(names(&st), ["Airband"]);
}

#[test]
fn deleting_what_is_not_there_is_answered() {
    let mut st = station();
    assert_eq!(st.process_command(r#"{"cmd":"delete_profile","name":"gone"}"#, None), SAVED);
    assert_eq!(names(&st), ["Airband", "Broadcast", "PMR"]);
    assert_eq!(st.store.current(), "PMR");
}

#[test]
fn renaming_moves_the_profile() {
    let mut st = station();
    let text = r#"{"cmd":"rename_profile","old_name":"PMR","new_name":" PMR446 "}"#;
    assert_eq!(st.process_command(text, None), SAVED);
    assert_eq!(st.store.current(), "PMR446");
    assert_eq!(freq(&st, "PMR446"), 446_000_000);
    assert_eq!(names(&st), ["Airband", "Broadcast", "PMR446"]);
    assert_eq!(st.process_command(text, None), QUIET);
    let back = r#"{"cmd":"rename_profile","old_name":"PMR446","new_name":"PMR"}"#;
    assert_eq!(st.process_command(back, None), SAVED);
    assert_eq!(names(&st), ["Airband", "Broadcast", "PMR"]);
    assert_eq!(st.store.current(), "PMR");
    let other = r#"{"cmd":"rename_profile","old_name":"Airband","new_name":"Broadcast"}"#;
    assert_eq!(st.process_command(other, None), SAVED);
    assert_eq!(names(&st), ["Broadcast", "PMR"]);
    assert_eq!(freq(&st, "Broadcast"), 125_000_000);
    assert_eq!(st.store.current(), "PMR");
}

#[test]
fn markers_are_pinned_once() {
    let mut st = station();
    let one = r#"{"cmd":"add_marker","freq_hz":446006250,"label":" PMR 1 "}"#;
    assert_eq!(st.process_command(one, None), SAVED);
    let two = r#"{"cmd":"add_marker","freq_hz":446018750.9,"label":"PMR 2"}"#;
    assert_eq!(st.process_command(two, None), SAVED);
    assert_eq!(markers(&st, "PMR"), [(446006250, name("PMR 1")), (446018750, name("PMR 2"))]);
    let again = r#"{"cmd":"add_marker","freq_hz":446006250,"label":"first"}"#;
    assert_eq!(st.process_command(again, None), SAVED);
    assert_eq!(markers(&st, "PMR"), [(446018750, name("PMR 2")), (446006250, name("first"))]);
    assert!(markers(&st, "Airband").is_empty());
    assert!(st.settings.markers.is_empty());
    assert_eq!(st.process_command(r#"{"cmd":"remove_marker","freq_hz":446018750}"#, None), SAVED);
    assert_eq!(markers(&st, "PMR"), [(446006250, name("first"))]);
    assert_eq!(st.process_command(r#"{"cmd":"remove_marker","freq_hz":1}"#, None), SAVED);
    assert_eq!(markers(&st, "PMR").len(), 1);
}

#[test]
fn markers_need_the_profile_in_use() {
    let mut store = ProfileStore::new(name("gone"));
    store.insert(name("here"), at(1));
    let mut st = Station::new(store);
    assert_eq!(st.process_command(r#"{"cmd":"add_marker","freq_hz":1,"label":"x"}"#, None), ANSWERED);
    assert_eq!(st.process_command(r#"{"cmd":"remove_marker","freq_hz":1}"#, None), ANSWERED);
    assert!(markers(&st, "here").is_empty());
}

#[test]
fn deleting_a_dangling_profile_in_use_picks_the_first() {
    let mut store = ProfileStore::new(name("gone"));
    store.insert(name("z"), at(1));
    store.insert(name("m"), at(2));
    let mut st = Station::new(store);
    assert_eq!(st.process_command(r#"{"cmd":"delete_profile","name":"gone"}"#, None), SAVED);
    assert_eq!(st.store.current(), "m");
    assert_eq!(st.store.len(), 2);
}

#[test]
fn members_are_read_from_the_message() {
    let r = Request::read(r#"{"cmd":"c","name":"n","old_name":"o","new_name":"w","label":"l","mode":"m","freq_hz":3,"offset_hz":-0.5,"squelch_db":1e3,"other":1}"#);
    assert_eq!(r.cmd.as_deref(), Some("c"));
    assert_eq!(r.name.as_deref(), Some("n"));
    assert_eq!(r.old_name.as_deref(), Some("o"));
    assert_eq!(r.new_name.as_deref(), Some("w"));
    assert_eq!(r.label.as_deref(), Some("l"));
    assert_eq!(r.mode.as_deref(), Some("m"));
    assert_eq!(r.freq_hz, Some(3.0f64.to_bits()));
    assert_eq!(r.offset_hz, Some((-0.5f64).to_bits()));
    assert_eq!(r.squelch_db, Some(1000.0f64.to_bits()));
    let none = Request::read("no json");
    assert!(none.cmd.is_none() && none.freq_hz.is_none());
    let wrong = Request::read(r#"{"cmd":1,"freq_hz":"3"}"#);
    assert!(wrong.cmd.is_none() && wrong.freq_hz.is_none());
}

#[test]
fn requests_at_hand_are_processed() {
    let mut st = station();
    let mut r = empty_request();
    assert_eq!(st.process_request(&r, None), QUIET);
    r.cmd = Some(name("select_profile"));
    r.name = Some(name("Broadcast"));
    assert_eq!(st.process_request(&r, None), ANSWERED);
    assert_eq!(st.settings.centre_freq, 98_000_000);
}

#[test]
fn unpinning_undoes_pinning() {
    let mut st = station();
    st.process_command(r#"{"cmd":"add_marker","freq_hz":1,"label":"one"}"#, None);
    st.process_command(r#"{"cmd":"add_marker","freq_hz":2,"label":"two"}"#, None);
    assert_eq!(st.process_command(r#"{"cmd":"remove_marker","freq_hz":2}"#, None), SAVED);
    assert_eq!(markers(&st, "PMR"), [(1, name("one"))]);
}

#[test]
fn commands_keep_to_their_part() {
    let mut st = station();
    st.process_command(r#"{"cmd":"set_demod","mode":"AM","squelch_db":-55}"#, None);
    assert_eq!(st.settings.centre_freq, 446_000_000);
    for text in [
        r#"{"cmd":"get_profiles"}"#,
        r#"{"cmd":"add_marker","freq_hz":1,"label":"x"}"#,
        r#"{"cmd":"load_profile","name":"Airband"}"#,
        r#"{"cmd":"delete_profile","name":"Broadcast"}"#,
        r#"{"cmd":"rename_profile","old_name":"Airband","new_name":"Air"}"#,
        r#"{"cmd":"select_profile","name":"Air"}"#,
    ] {
        st.process_command(text, None);
        assert_eq!(st.demod.mode, Some(DemodMode::AM));
        assert_eq!(f64::from_bits(st.demod.squelch_db), -55.0);
    }
    assert_eq!(st.settings.centre_freq, 125_000_000);
    assert_eq!(markers(&st, "PMR").len(), 1);
    assert_eq!(names(&st), ["Air", "PMR"]);
}

#[test]
fn answers_tell_the_profiles_after_the_command() {
    let mut st = station();
    let outcome = st.process_command(r#"{"cmd":"get_profiles"}"#, None);
    let m = st.reply(&outcome).unwrap();
    assert_eq!((m.kind, m.current.as_str(), m.profiles.len()), ("profiles", "PMR", 3));
    let outcome = st.process_command(r#"{"cmd":"delete_profile","name":"PMR"}"#, None);
    let m = st.reply(&outcome).unwrap();
    assert_eq!((m.kind, m.current.as_str()), ("profiles", "Airband"));
    let mut told: Vec<&str> = m.profiles.iter().map(|p| p.name.as_str()).collect();
    told.sort();
    assert_eq!(told, ["Airband", "Broadcast"]);
    let outcome = st.process_command(r#"{"cmd":"select_profile","name":"gone"}"#, None);
    assert!(st.reply(&outcome).is_none());
    let outcome = st.process_command(r#"{"cmd":"set_demod","mode":"AM"}"#, None);
    assert!(st.reply(&outcome).is_none());
    assert_eq!(st.profiles_message().current, "Airband");
}
