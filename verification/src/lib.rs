//! The receiver logic of a small SDR web server: decoding of control messages, the profile
//! store, the binary frames sent to browsers, and the signal path from raw IQ bytes to a
//! spectrum frame and an audio frame.

pub mod text;
pub mod number;
pub mod settings;
pub mod config;
pub mod store;
pub mod json;
pub mod command;
pub mod station;
pub mod math;
pub mod formula;
pub mod reals;
pub mod measure;
pub mod ideal;
pub mod raw;
pub mod frame;
pub mod spectrum;
pub mod filter;
pub mod demod;
pub mod audio;
pub mod squelch;
pub mod receiver;
pub mod agreement;
pub mod blocker;
pub mod tuning;
pub mod response;
pub mod hearing;
pub mod display;
pub mod path;
pub mod http;
