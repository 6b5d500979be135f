[package]
name = "strategy-ci-core"
version = "0.1.0"
edition = "2021"
publish = false

[dependencies]
serde = { version = "1", features = ["derive"] }
serde_json = "1"
rand = "*"
rand_pcg = "*"
rayon = "1"
clap = { version = "4", features = ["derive"] }
thiserror = "*"
blake3 = "1"
wickra-backtest-core = "*"
