[package]
name = "assetcanon"
version = "0.1.0"
edition = "2021"
publish = false

[dependencies]
anyhow = "1"
clap = { version = "4", features = ["derive"] }
futures = "0.3"
hickory-resolver = { version = "*", features = ["tokio"] }
idna = "1"
ipnet = "2"
publicsuffix = "2"
rand = "0.9"
rayon = "1"
regex = "1"
serde = { version = "1", features = ["derive"] }
serde_json = "1"
tokio = { version = "1", features = ["rt-multi-thread", "macros", "time", "sync", "net"] }
