[package]
name = "codexs"
version = "0.3.0"
edition = "2021"
publish = false

[dependencies]
base64 = "=0.22.1"
chrono = "=0.4.45"
getrandom = "=0.4.3"
log = "=0.4.35"
rusqlite = { version = "=0.32.1", features = ["bundled"] }
serde = { version = "=1.0.229", features = ["derive"] }
serde_json = "=1.0.154"
tokio = { version = "=1.54.1", features = ["fs", "process", "rt-multi-thread", "macros", "time"] }
uuid = { version = "=1.29.0", features = ["v4"] }
