[package]
name = "rbkcrack"
version = "0.1.0"
edition = "2021"
publish = false

[dependencies]
rayon = "1"
flate2 = "1"
zip = { version = "0.6", default-features = false }
podio = "0.1"
structopt = "0.3"
failure = "0.1"
log = "0.4"
env_logger = "0.10"
chrono = "0.4"
