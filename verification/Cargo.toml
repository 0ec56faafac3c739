[package]
name = "nest_server"
version = "0.1.0"
edition = "2021"
publish = false

[dependencies]
rand = "*"
serde_json = "*"
sha2 = "*"
data-encoding = "*"
serde = { version = "*", features = ["derive"] }
toml = "*"
flate2 = "*"
tar = "*"
glob = "*"
chrono = "*"
