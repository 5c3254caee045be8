[package]
name = "portfolio_forecast"
version = "0.1.0"
edition = "2021"
publish = false

[dependencies]
anyhow = "1"
chrono = "0.4"
log = "0.4"
prost = "0.13"
prost-types = "0.13"
zip = { version = "2", default-features = false, features = ["deflate"] }
