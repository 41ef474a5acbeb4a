[package]
name = "cpudash"
version = "0.1.0"
edition = "2021"
publish = false

[dependencies]
rand = "0.8"
axum = { version = "0.6", features = ["ws"] }
tokio = { version = "1", features = ["macros", "rt-multi-thread", "sync", "time", "fs"] }
sysinfo = "0.29"
serde = { version = "1", features = ["derive"] }
serde_json = "1"
tracing-subscriber = "0.3"
