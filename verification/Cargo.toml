[package]
name = "logic_sim"
version = "0.1.0"
edition = "2021"
publish = false

[dependencies]
slotmap = { version = "1", features = ["serde"] }
serde = { version = "1", features = ["derive"] }
bincode = "1"
flate2 = "1"
rstar = "0.12"
macroquad = { version = "0.4", default-features = false }
