[package]
name = "eml-sr"
version = "0.1.0"
edition = "2021"
publish = false

[dependencies]
anyhow = "1"
candle-core = "0.8"
candle-nn = "0.8"
clap = { version = "4", features = ["derive"] }
csv = "1"
rand = "0.8"
rand_distr = "0.4"
thiserror = "1"
