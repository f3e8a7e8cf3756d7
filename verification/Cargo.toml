[package]
name = "darkfi"
version = "0.1.0"
edition = "2021"
publish = false

[dependencies]
rand = "0.8"
url = "2"
log = "0.4"
clap = "2"
serde = { version = "1", features = ["derive"] }
futures = "0.3"
smol = "1"
async-std = "1"
async-executor = "1"
