[package]
name = "sokoban_fuzz"
version = "0.1.0"
edition = "2021"
publish = false

[dependencies]
sokoban = { version = "=0.2.3", features = ["serde"] }
rand = "=0.8.8"
serde = { version = "=1.0.229", features = ["derive"] }
serde_json = "=1.0.154"
libafl = "=0.11.2"
libafl_bolts = "=0.11.2"
reqwest = { version = "=0.12.28", features = ["blocking", "json"] }
tokio-tungstenite = "=0.26.2"
