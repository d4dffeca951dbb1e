[package]
name = "game_monitor"
version = "0.1.0"
edition = "2021"
publish = false

[dependencies]
anyhow = "1"
futures = "0.3"
iota-client = "2.0.1-rc.7"
pyo3 = "0.18"
serde = { version = "1", features = ["derive"] }
serde_json = "1"
termion = "*"
tokio = { version = "1", features = ["macros", "rt-multi-thread"] }
