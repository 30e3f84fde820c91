[package]
name = "ratioup"
version = "0.1.0"
edition = "2021"
publish = false

[dependencies]
fastrand = "2"
url = "2"
sha1_smol = "1"
toml = "0.8"
rand = "0.8"
rand_regex = "0.17"
fake-torrent-client = "0.9"
tokio = { version = "1", features = ["full"] }
tracing = "0.1"
tracing-subscriber = "0.3"
reqwest = { version = "0.12", default-features = false }
chrono = "0.4"
notify = "*"
xdg = "*"
byte-unit = "5"
serde = { version = "1", features = ["derive"] }

[dev-dependencies]
regex = "1"
