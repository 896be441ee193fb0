[package]
name = "fleetwatch"
version = "0.1.0"
edition = "2021"
publish = false

[dependencies]
bincode = "1"
chrono = "*"
futures = "*"
progress_bar = "*"
serde = { version = "*", features = ["derive"] }
string-tools = "*"
tokio = { version = "*", features = ["fs", "io-util", "macros", "net", "process", "rt-multi-thread", "time"] }
