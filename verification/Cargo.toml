[package]
name = "scripthost"
version = "0.1.0"
edition = "2021"
publish = false

[dependencies]
clap = { version = "3", features = ["derive"] }
rhai = { version = "1", features = ["serde"] }
serde_json = "1"
