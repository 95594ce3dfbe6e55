[package]
name = "peptide_synth"
version = "0.1.0"
edition = "2021"
publish = false

[dependencies]
rand = "=0.9.5"
ron = "=0.12.2"
serde = { version = "=1.0.229", features = ["derive"] }
