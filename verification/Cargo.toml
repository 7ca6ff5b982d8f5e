[package]
name = "bitserv"
version = "0.1.0"
edition = "2021"
publish = false

[dependencies]
anyhow = "=1.0.104"
argon2 = "=0.5.3"
axum = "=0.7.9"
bdk_bitcoind_rpc = "=0.17.1"
bdk_electrum = "=0.20.1"
bdk_wallet = { version = "=1.2.0", features = ["keys-bip39"] }
chacha20poly1305 = "=0.10.1"
dotenv = "=0.15.0"
env_logger = "=0.11.11"
log = "=0.4.34"
rand = "=0.8.8"
serde = { version = "=1.0.229", features = ["derive"] }
serde_json = "=1.0.151"
tokio = { version = "=1.53.2", features = ["macros", "rt-multi-thread", "net", "time", "sync"] }
