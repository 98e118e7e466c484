[package]
name = "irmaseal"
version = "0.1.0"
edition = "2021"
publish = false

[dependencies]
ibe = { version = "=0.3.0", features = ["cgwkv", "mkem"] }
rand = "=0.8.8"
sha3 = "=0.10.9"
digest = "=0.10.7"
base64ct = { version = "=1.8.3", features = ["alloc"] }
aes-gcm = "=0.10.3"
aead = { version = "=0.5.2", features = ["stream", "alloc"] }
subtle = "=2.6.1"
serde = { version = "=1.0.229", features = ["derive"] }
serde_json = "=1.0.154"
rmp-serde = "=1.3.1"
futures = "=0.3.34"
tokio = { version = "=1.54.1", features = ["time", "rt", "macros"] }
reqwest = { version = "=0.11.27", default-features = false, features = ["json"] }
irma = "=0.2.1"
clap = { version = "=4.6.7", features = ["derive"] }
actix-web = { version = "=4.18.1", default-features = false }
actix-cors = "*"
prometheus = { version = "*", default-features = false }
env_logger = "*"
lazy_static = "*"
qrcode = { version = "=0.14.1", default-features = false }
indicatif = "=0.18.6"
inquire = "=0.9.4"

[dev-dependencies]
serde-transcode = "=1.1.1"
