[package]
name = "onionize"
version = "0.1.0"
edition = "2021"
publish = false

[dependencies]
anyhow = "*"
base32 = "=0.5.1"
clap = { version = "*", features = ["derive"] }
directories = "*"
futures = "=0.3.34"
hex = "=0.4.3"
indicatif = "*"
qrcode = "*"
rand = "=0.10.3"
safelog = "*"
sys-locale = "*"
tokio = { version = "*", features = ["rt-multi-thread", "macros", "signal"] }
tor-rtcompat = { version = "=0.47.0", default-features = false, features = ["tokio", "rustls"] }
tracing = "*"
tracing-subscriber = { version = "*", features = ["env-filter"] }
x25519-dalek = { version = "=3.0.0", features = ["static_secrets", "getrandom"] }
