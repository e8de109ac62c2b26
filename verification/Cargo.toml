[package]
name = "argonfand"
version = "0.1.0"
edition = "2021"
publish = false

[dependencies]
gumdrop = "0.8"
rppal = "*"
serde = { version = "1", features = ["derive"] }
static-alloc = "0.2"
toml = "*"
