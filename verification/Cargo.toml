[package]
name = "lyricdock"
version = "0.1.0"
edition = "2021"
publish = false

[dependencies]
unicode-width = "=0.2.3"
serde = { version = "=1.0.229", features = ["derive"] }
serde_json = "=1.0.154"
toml = "=0.9.12"
zbus = "=5.19.0"
zvariant = "=5.15.1"
ksni = { version = "=0.3.7", features = ["blocking"] }
image = { version = "=0.25.10", default-features = false, features = ["png"] }
wayland-client = "=0.31.15"
