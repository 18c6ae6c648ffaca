[package]
name = "evetrade"
version = "0.1.0"
edition = "2021"
publish = false

[dependencies]
bincode = "1"
bzip2 = "*"
chrono = "0.4"
csv = "1"
env_logger = "0.10"
lazy_static = "1"
log = "0.4"
num-traits = "0.2"
reqwest = { version = "*", default-features = false, features = ["blocking", "rustls-tls"] }
serde = { version = "1", features = ["derive"] }
serde_yaml = "*"
tar = "0.4"
toml = "*"
xz2 = "*"
