[package]
name = "wahlberg"
version = "0.3.0"
edition = "2021"
publish = false

[dependencies]
chrono = { version = "=0.4.45", features = ["serde"] }
proc-macro2 = "=1.0.107"
quote = "=1.0.47"
serde = { version = "=1.0.229", features = ["derive"] }
serde_json = "=1.0.154"
syn = "=2.0.119"
thiserror = "=2.0.21"
ulid = { version = "=1.2.1", features = ["serde"] }
