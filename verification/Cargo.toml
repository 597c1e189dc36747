[package]
name = "ferrosdr"
version = "0.1.0"
edition = "2021"
publish = false

[dependencies]
futures-util = "*"
num-complex = "*"
rtl-sdr-rs = "*"
rustfft = "*"
serde = { version = "1", features = ["derive"] }
serde_json = "1"
tokio = { version = "1", features = ["rt-multi-thread", "macros", "net", "io-util", "sync"] }
tokio-tungstenite = "*"
