[package]
name = "rust_shell"
version = "0.1.0"
edition = "2021"
publish = false

[dependencies]
anyhow = "*"
logos = "*"
rustyline = "*"
serde = { version = "*", features = ["derive"] }
serde_json = "*"
whoami = "*"
