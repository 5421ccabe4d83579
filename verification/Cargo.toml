[package]
name = "resume"
version = "0.1.0"
edition = "2021"
publish = false

[dependencies]
rand = "0.9"
base64 = "0.22"
bilrost = "*"
laser-pdf = "*"
axum = "0.8"
tokio = { version = "1", features = ["macros", "rt-multi-thread", "net"] }
mimalloc = "*"
