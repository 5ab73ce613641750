[package]
name = "mcget"
version = "0.1.0"
edition = "2021"
publish = false

[dependencies]
aes-gcm = "0.10"
base64 = "0.22"
clap = "4"
flate2 = "1"
p384 = { version = "0.13", features = ["ecdh"] }
rand = "0.8"
rust-i18n = "3"
serde = { version = "1", features = ["derive"] }
serde_json = "1"
sha2 = "0.10"
sys-locale = "0.3"
thiserror = "1"
tokio = { version = "1", features = ["macros", "net", "io-util", "rt-multi-thread", "sync", "time"] }
