[package]
name = "cooee"
version = "1.1.0"
edition = "2021"
publish = false

[dependencies]
anyhow = "=1.0.104"
arboard = { version = "=3.7.0", default-features = false }
cpal = "=0.15.3"
crossbeam-channel = "=0.5.17"
dirs = "=5.0.1"
half = "=2.7.1"
once_cell = "=1.21.4"
ort = { version = "=2.0.0-rc.13", default-features = false, features = ["std", "half", "load-dynamic", "api-23"] }
parking_lot = "=0.12.5"
realfft = "=3.5.1"
rubato = "=0.15.0"
serde = { version = "=1.0.229", features = ["derive"] }
serde_json = "=1.0.154"
tracing = "=0.1.44"
tracing-subscriber = { version = "=0.3.23", features = ["env-filter"] }
whisper-rs = "=0.14.4"
