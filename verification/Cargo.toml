[package]
name = "busy"
version = "0.1.0"
edition = "2021"
publish = false

[dependencies]
anyhow = "1"
chrono = { version = "0.4", features = ["serde"] }
clap = { version = "4", features = ["derive"] }
clap_complete = { version = "~4.4", features = ["unstable-dynamic"] }
colored = "2"
env_logger = "0.10"
log = "0.4"
serde = { version = "1", features = ["derive"] }
serde_json = "1"
subprocess = "0.2"
tempfile = "3"
uuid = { version = "1", features = ["v4", "serde"] }
