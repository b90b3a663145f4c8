[package]
name = "agent_workspace"
version = "0.1.0"
edition = "2021"
publish = false

[dependencies]
chrono = "*"
uuid = { version = "*", features = ["v4"] }
tokio = { version = "*", features = ["process", "rt", "rt-multi-thread", "time", "io-util", "macros"] }
serde_json = "*"
