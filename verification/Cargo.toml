[package]
name = "chatter"
version = "0.1.0"
edition = "2021"
publish = false

[dependencies]
uuid = { version = "1", features = ["v4", "serde"] }
chrono = "0.4"
serde = { version = "1", features = ["derive"] }
serde_json = "1"
tokio = { version = "1", features = ["full"] }
warp = "0.3"
hyper = { version = "0.14", features = ["full"] }
futures = "0.3"
tokio-stream = "0.1"
route-recognizer = "0.3"
async-trait = "0.1"
dirs = "4"
