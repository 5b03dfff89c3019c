[package]
name = "quasi_align"
version = "0.1.0"
edition = "2021"
publish = false

[dependencies]
bio-seq = { version = "=0.14.8", features = ["serde"] }
bio-seq-derive = "=4.11.0"
hashbrown = "=0.17.1"
petgraph = "=0.8.3"
serde = { version = "=1.0.229", features = ["derive"] }
