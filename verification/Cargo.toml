[package]
name = "rzx"
version = "0.1.0"
edition = "2021"
publish = false

[dependencies]
aes-gcm = "0.10"
anyhow = "1"
clap = { version = "4", features = ["derive"] }
crc32fast = "1"
env_logger = "0.11"
flate2 = "1"
indicatif = "0.17"
lzma-rs = "0.3"
pbkdf2 = "0.12"
rand = "0.8"
rayon = "1"
sha2 = "0.10"
thiserror = "1"
walkdir = "2"
zstd = "0.13"

[dev-dependencies]
bincode = "1.3"
serde = "1"
