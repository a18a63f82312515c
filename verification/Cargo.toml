[package]
name = "incsync"
version = "0.1.0"
edition = "2021"
publish = false

[dependencies]
crossbeam-channel = "*"
ctrlc = "*"
parking_lot = "*"
serde = { version = "*", features = ["derive"] }
serde_json = "*"
