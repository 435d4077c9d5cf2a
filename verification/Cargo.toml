[package]
name = "credlock"
version = "0.1.0"
edition = "2021"
publish = false

[dependencies]
serde = { version = "1", features = ["derive"] }
serde_json = "1"
structopt = "0.3"
dialoguer = "0.4"
security-framework = "*"
