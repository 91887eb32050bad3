[package]
name = "tcplex"
version = "0.1.0"
edition = "2021"
publish = false

[dependencies]
backon = "1"
clap = { version = "4", features = ["derive"] }
clap-verbosity-flag = "3"
color-eyre = "0.6"
env_logger = "0.11"
log = "0.4"
owo-colors = "4"
serde = { version = "1", features = ["derive"] }
tokio = { version = "1", features = ["full"] }
toml = "0.8"
