[package]
name = "poker_project_rustaceans"
version = "0.1.0"
edition = "2021"
publish = false

[dependencies]
rand = "0.9"
uuid = { version = "1", features = ["v7", "serde"] }
serde = { version = "1", features = ["derive"] }
serde_json = "1"
strum = "0.27"
strum_macros = "0.27"
tokio = { version = "1", features = ["macros", "rt-multi-thread", "sync"] }
warp = "0.3"
mongodb = "3"
bson = { version = "2", features = ["uuid-1"] }
