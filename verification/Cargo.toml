[package]
name = "data_logger"
version = "0.1.0"
edition = "2021"
publish = false

[dependencies]
petgraph = "0.6"
actix-web = { version = "3", default-features = false }
env_logger = "0.8"
log = "0.4"
serde = { version = "1", features = ["derive"] }
serde_json = "1"
structopt = "0.3"
