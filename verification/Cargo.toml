[package]
name = "qubiq"
version = "0.1.0"
edition = "2021"
publish = false

[dependencies]
anyhow = "1"
ctrlc = "3"
flate2 = "1"
serde = { version = "1", features = ["derive"] }
serde_yaml = "0.9"
