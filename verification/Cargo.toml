[package]
name = "litebrite"
version = "0.1.0"
edition = "2021"
publish = false

[dependencies]
chrono = "*"
sha2 = "*"
serde = { version = "*", features = ["derive"] }
serde_json = "*"
clap = { version = "*", features = ["derive"] }
clap_complete = "*"
