[package]
name = "compression_experiment"
version = "0.2.0"
edition = "2021"
publish = false

[dependencies]
flate2 = "1"
zstd = "0.13"
constriction = "0.4"
rand = "0.8"
ndarray = "0.16"
serde = { version = "1", features = ["derive"] }
serde_json = "1"
