[package]
name = "makemore_rs"
version = "0.1.0"
edition = "2021"
publish = false

[dependencies]
anyhow = "*"
candle-core = "*"
candle-nn = "*"
plotters = "*"
rand = "0.8"
tracing = "*"
tracing-subscriber = { version = "*", features = ["env-filter"] }
