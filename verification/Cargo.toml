[package]
name = "redips"
version = "0.1.0"
edition = "2021"
publish = false

[dependencies]
sha2 = "0.10"
ripemd = "0.1"
hex = "0.4"
bip39 = "2"
secp256k1 = "0.29"
rand = "0.8"
uuid = { version = "1", features = ["v4"] }
chrono = "0.4"
serde = { version = "1", features = ["derive"] }
serde_json = "1"
sled = "0.34"
actix-web = "4"
actix-cors = "0.7"
anyhow = "1"
dotenv = "0.15"
env_logger = "0.11"
log = "0.4"
