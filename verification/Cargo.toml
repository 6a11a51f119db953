[package]
name = "neat"
version = "0.1.0"
edition = "2021"
publish = false

[dependencies]
petgraph = "0.6"
rand = "0.8"
serde = { version = "1", features = ["derive"] }
toml = "0.5"
clap = "2"
