[package]
name = "btclib"
version = "0.1.0"
edition = "2021"
publish = false

[dependencies]
bigdecimal = "0.4"
chrono = { version = "0.4", features = ["serde"] }
ciborium = "0.2"
hex = "0.4"
k256 = { version = "0.13", features = ["ecdsa", "serde", "pem"] }
rand_core = { version = "0.6", features = ["getrandom"] }
serde = { version = "1", features = ["derive"] }
sha256 = { version = "1", default-features = false }
tokio = { version = "1", features = ["macros", "rt-multi-thread", "net"] }
uint = "0.9"
uuid = { version = "1", features = ["v4", "serde"] }
