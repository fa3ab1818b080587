[package]
name = "graphql_cache"
version = "0.1.0"
edition = "2021"
publish = false

[dependencies]
chrono = "0.4"
rand = "0.8"
serde = { version = "1", features = ["derive"] }
serde_json = "1"
tokio = { version = "1", features = ["rt-multi-thread", "macros"] }
warp = { version = "0.3", default-features = false }
redis = { version = "0.25", features = ["tokio-comp"] }
reqwest = { version = "0.11", default-features = false, features = ["json"] }
clap = { version = "4", features = ["derive"] }
jsonwebtoken = "8"
