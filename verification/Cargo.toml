[package]
name = "simblock"
version = "0.1.0"
edition = "2021"
publish = false

[dependencies]
num-bigint = "0.4"
rand = "0.8"
rand_chacha = "0.3"
rand_distr = "0.4"
serde = { version = "1", features = ["derive"] }
serde_json = "1"
toml = "0.8"
clap = { version = "4", features = ["derive"] }
chrono = "0.4"
indicatif = "0.17"
