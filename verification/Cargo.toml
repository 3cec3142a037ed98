[package]
name = "corgit"
version = "0.1.0"
edition = "2021"
publish = false

[dependencies]
serde = { version = "1", features = ["derive"] }
serde_json = "1"
dunce = "1"
log = "0.4"
tokio = { version = "1", features = ["process", "sync", "time", "fs", "io-util", "rt", "macros"] }
notify-debouncer-mini = "0.4"
