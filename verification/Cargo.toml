[package]
name = "hakodb"
version = "0.1.0"
edition = "2021"
publish = false

[dependencies]
axum = { version = "0.7", features = ["ws"] }
bincode = "1"
crossbeam-channel = "0.5"
futures = "0.3"
futures-util = "0.3"
fxhash = "0.2"
gethostname = "*"
hashbrown = "0.14"
local-ip-address = "0.6"
mdns-sd = "*"
memmap2 = "0.9"
rand = "0.8"
rayon = "1"
rmp-serde = "1"
rustls = { version = "0.23", default-features = false, features = ["ring", "std"] }
serde = { version = "1", features = ["derive"] }
serde_json = "1"
sha2 = "0.10"
smallvec = "1"
thiserror = "1"
tokio = { version = "1", features = ["full"] }
tokio-tungstenite = { version = "0.24", features = ["rustls-tls-webpki-roots"] }
tracing = "0.1"
