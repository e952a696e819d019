[package]
name = "eve_market_analysis"
version = "0.1.0"
edition = "2021"
publish = false

[dependencies]
ws = "=0.9.2"
chttp = { version = "=0.5.5", features = ["json"] }
serde = "=1.0.229"
serde_derive = "=1.0.229"
serde_json = "=1.0.151"
log = "=0.4.34"
chrono = "=0.4.45"
