[package]
name = "tick_engine"
version = "0.1.0"
edition = "2021"
publish = false

[dependencies]
solana-sdk = "=1.18.26"
anchor-lang = "=0.30.1"
clap = { version = "=4.5.61", features = ["derive"] }
