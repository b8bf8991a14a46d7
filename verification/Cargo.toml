[package]
name = "minimarket"
version = "0.1.0"
edition = "2021"
publish = false

[dependencies]
anyhow = "1"
bincode = "1"
bytes = "1"
dashmap = "6"
futures-util = { version = "0.3", features = ["sink"] }
num_cpus = "1"
rand = "0.9"
rand_distr = "0.5"
serde = { version = "1", features = ["derive"] }
tokio = { version = "1", features = ["full"] }
tokio-stream = "0.1"
tokio-tungstenite = "*"
uuid = { version = "1", features = ["v4", "serde"] }
