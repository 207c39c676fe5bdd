[package]
name = "ddbb"
version = "0.1.0"
edition = "2021"
publish = false

[dependencies]
rand = "0.8"
bytes = "1"
serde = { version = "1", features = ["derive"] }
serde_json = "1"
omnipaxos = { version = "*", features = ["serde"] }
omnipaxos_storage = "0.2"
tokio = { version = "1", features = ["full"] }
log = "0.4"
env_logger = "*"
structopt = "0.3"
bincode = "1"

[dev-dependencies]
