[package]
name = "r4w_core"
version = "0.1.0"
edition = "2021"
publish = false

[dependencies]
aes = "0.8"
ctr = "0.9"
hmac = "0.12"
sha2 = "0.10"
anyhow = "1"
clap = { version = "4", features = ["derive"] }
byteorder = "1"
rand = "0.8"
tracing = "0.1"
tracing-subscriber = "0.3"
ctrlc = "3"
serde = { version = "1", features = ["derive"] }
