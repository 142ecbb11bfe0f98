[package]
name = "poker_solver"
version = "0.1.0"
edition = "2021"
publish = false

[dependencies]
anyhow = "1"
clap = { version = "4", features = ["derive"] }
colored = "2"
serde_json = "1"
rand = "0.8"
rand_xoshiro = "0.6"
smallvec = "1"
thiserror = "1"
