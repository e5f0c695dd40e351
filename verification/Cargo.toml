[package]
name = "kollaps"
version = "0.1.0"
edition = "2021"
publish = false

[dependencies]
serde = { version = "1", features = ["derive"] }
serde_json = "1"
serde_millis = "0.1"
uuid = { version = "1", features = ["v4", "serde"] }
regex = "1"
roxmltree = "*"
rand = "0.8"
tokio = { version = "1", features = ["full"] }
clap = { version = "4", features = ["derive"] }
async-trait = "0.1"
futures = "0.3"
bytes = "1"
libloading = "0.8"
lockfree = "0.5"
