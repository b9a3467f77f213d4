[package]
name = "mystuff"
version = "0.1.0"
edition = "2021"
publish = false

[dependencies]
shellexpand = "*"
clap = { version = "*", features = ["derive"] }
clap-verbosity-flag = "*"
env_logger = "*"
inquire = "*"
log = "*"

[dev-dependencies]
serde_json = "*"
