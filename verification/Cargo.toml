[package]
name = "slapper"
version = "0.1.0"
edition = "2021"
publish = false

[dependencies]
clap = "4"
http = "1"
reqwest = { version = "0.12", default-features = false, features = ["blocking", "json"] }
serde = { version = "1", features = ["derive"] }
serde_json = "1"
url = "2"
