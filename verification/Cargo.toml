[package]
name = "phasius"
version = "0.1.0"
edition = "2021"
publish = false

[dependencies]
clap = { version = "=3.2.25", features = ["derive"] }
env_logger = "=0.10.2"
log = "=0.4.34"
plotly = "=0.8.4"
rayon = "=1.12.0"
rust-htslib = { version = "=0.44.1", default-features = false }
