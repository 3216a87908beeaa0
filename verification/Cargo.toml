[package]
name = "secret_satan"
version = "0.1.0"
edition = "2021"
publish = false

[dependencies]
rand = "0.8"
dioxus = { version = "0.5", features = ["web"] }
dioxus-logger = "0.5"
gloo-storage = "0.3"
serde = { version = "1", features = ["derive"] }
