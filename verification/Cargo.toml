[package]
name = "quinn_daemon"
version = "0.1.0"
edition = "2021"
publish = false

[dependencies]
serde = { version = "=1.0.229", features = ["derive"] }
serde_json = { version = "=1.0.154", features = ["raw_value"] }
sha2 = "=0.10.9"
tokio = { version = "=1.54.1", features = ["rt-multi-thread", "macros", "signal", "time"] }
tracing = "=0.1.44"
tracing-subscriber = { version = "=0.3.23", features = ["env-filter"] }
zbus = "=5.19.0"
notify = "=8.2.1"
needle-infer = "=0.2.1"
ureq = { version = "=3.5.1", features = ["json"] }
gtk4 = "=0.9.7"
