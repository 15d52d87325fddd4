[package]
name = "tournaments"
version = "0.1.0"
edition = "2021"
publish = false

[dependencies]
ammonia = "=4.2.4"
chrono = "=0.4.45"
good_lp = { version = "1", default-features = false, features = ["microlp"] }
itertools = "=0.14.0"
rand = "=0.9.5"
rand_chacha = "=0.9.0"
rust_decimal = "=1.43.0"
serde = { version = "=1.0.229", features = ["derive"] }
serde_json = "=1.0.154"
uuid = { version = "=1.29.0", features = ["v7"] }
