[package]
name = "rocom_pets"
version = "0.1.0"
edition = "2021"
publish = false

[dependencies]
anyhow = "=1.0.104"
serde = { version = "=1.0.229", features = ["derive"] }
toml = "=1.1.8"
toml_edit = "*"
zip = { version = "=9.2.2", default-features = false, features = ["deflate"] }
log = "=0.4.35"
image = { version = "=0.25.10", default-features = false, features = ["png"] }
