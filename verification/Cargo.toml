[package]
name = "constrained_hmm"
version = "0.1.0"
edition = "2021"
publish = false

[dependencies]
clap = "3.2"
num-bigint = "0.4"
rand = "0.8"
regex = "1"
serde = { version = "1", features = ["derive"] }
serde_yaml = "0.9"
ttaw = "*"

[dev-dependencies]
num-traits = "0.2"
