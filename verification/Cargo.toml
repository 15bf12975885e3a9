[package]
name = "bronzedb"
version = "0.1.0"
edition = "2021"
publish = false

[dependencies]
byteorder = "1"
log = "0.4"
env_logger = "*"
r2d2 = "0.8"
sled = "*"
serde = { version = "1", features = ["derive"] }
config = { version = "*", default-features = false, features = ["toml"] }
