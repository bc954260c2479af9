[package]
name = "lamellar"
version = "0.5.0"
edition = "2021"
publish = false

[dependencies]
anyhow = "1"
async-std = "1"
async-trait = "0.1"
futures = "0.3"
inventory = "0.3"
log = "0.4"
parking_lot = "0.12"
serde = { version = "1", features = ["derive"] }
