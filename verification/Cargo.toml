[package]
name = "snarkos-ledger"
version = "0.1.0"
edition = "2021"
publish = false

[dependencies]
aleo-std = { version = "=0.1.24", features = ["cpu", "storage"] }
anyhow = "=1.0.104"
chrono = "=0.4.45"
itertools = "=0.10.5"
rand = "=0.8.8"
serde = { version = "=1.0.229", features = ["derive"] }
snarkvm-algorithms = "=0.8.0"
snarkvm-dpc = "=0.8.0"
snarkvm-utilities = "=0.8.0"
