[package]
name = "p2p_chat"
version = "0.1.0"
edition = "2021"
publish = false

[dependencies]
aes-gcm = "*"
anyhow = "*"
chrono = "*"
ed25519-dalek = "*"
flume = "*"
futures = "*"
getrandom = "*"
hex = "*"
hkdf = "*"
sha2 = "*"
tokio = { version = "*", features = ["rt-multi-thread", "net", "io-util", "time", "sync", "macros"] }
tokio-yamux = "*"
uuid = { version = "*", features = ["v4"] }
x25519-dalek = { version = "*", features = ["static_secrets"] }
