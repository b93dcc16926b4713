[package]
name = "rsomics_reaching_centrality"
version = "0.1.0"
edition = "2021"
publish = false

[dependencies]
clap = { version = "=4.6.7", features = ["derive"] }
serde = { version = "=1.0.229", features = ["derive"] }
rsomics-common = "=0.5.1"
