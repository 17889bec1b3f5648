[package]
name = "mega-dl"
version = "0.1.0"
edition = "2021"
publish = false

[dependencies]
aes = "0.8"
anyhow = "1"
base64 = "0.22"
bytes = "1"
cbc = "0.1"
cipher = { version = "0.4", features = ["block-padding"] }
ctr = "0.9"
futures = "0.3"
indicatif = "0.17"
libc = "0.2"
rand = "0.8"
reqwest = { version = "0.12", default-features = false, features = ["json", "rustls-tls", "socks"] }
serde = { version = "1", features = ["derive"] }
serde_json = "1"
tokio = { version = "1", features = ["full"] }
