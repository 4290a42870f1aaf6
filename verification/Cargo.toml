[package]
name = "state_preimages"
version = "0.1.0"
edition = "2021"
publish = false

[dependencies]
alloy-primitives = "1"
anyhow = "1"
clap = { version = "4", features = ["derive"] }
hex = "0.4"
rayon = "1"
tabled = "*"
tokio = { version = "1", features = ["rt-multi-thread"] }
