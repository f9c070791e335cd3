[package]
name = "companion_memory"
version = "0.1.0"
edition = "2021"
publish = false

[dependencies]
chrono = { version = "0.4", features = ["serde"] }
clap = { version = "4", features = ["derive"] }
ctrlc = "3"
homedir = "*"
openai_api_rust = "0.1"
serde = { version = "1", features = ["derive"] }
serde_json = "1"
shellwords = "1"
whoami = "1"
