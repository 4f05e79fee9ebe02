[package]
name = "chisel"
version = "0.1.0"
edition = "2021"
publish = false

[dependencies]
anyhow = "1"
fastnbt = "2"
flate2 = "1"
png = "0.17"
rayon = "1"
serde = { version = "1", features = ["derive"] }
serde_json = "1"
zip = { version = "2", default-features = false, features = ["deflate"] }
