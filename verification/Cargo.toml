[package]
name = "cm31_ntt"
version = "0.1.0"
edition = "2021"
publish = false

[dependencies]
num-traits = "0.2"
rand = "0.9"
serde = { version = "1", features = ["derive"] }

[dev-dependencies]
rand_chacha = "0.9"
