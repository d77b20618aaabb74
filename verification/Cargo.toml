[package]
name = "mahjong_dp"
version = "0.1.0"
edition = "2021"
publish = false

[dependencies]
itertools = "0.14"
anyhow = "1"
async-trait = "0.1"
axum = "0.7"
bincode = "1.3"
chrono = "0.4"
clap = { version = "4", features = ["derive"] }
deadpool = "0.9"
glob = "0.3"
rayon = "1"
serde = { version = "1", features = ["derive"] }
tokio = { version = "1", features = ["full"] }
tower-http = { version = "0.5", features = ["cors"] }
tracing = "0.1"
tracing-subscriber = "0.3"
