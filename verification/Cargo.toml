[package]
name = "pico_demux"
version = "0.1.0"
edition = "2021"
publish = false

[dependencies]
actix-files = "=0.6.10"
actix-web = { version = "=4.18.1", default-features = false, features = ["macros"] }
anyhow = "=1.0.104"
chrono = "=0.4.45"
console = "=0.16.6"
csv = "=1.4.0"
dialoguer = "=0.12.0"
env_logger = "=0.10.2"
native-dialog = "=0.9.7"
parking_lot = "=0.12.5"
pico-sdk = "=0.4.0"
procinfo = "=0.4.2"
serde = { version = "=1.0.229", features = ["derive"] }
serde_json = "=1.0.154"
signifix = "=0.10.1"
tracing = "=0.1.44"
