[package]
name = "r1cs_acir"
version = "0.1.0"
edition = "2021"
publish = false

[dependencies]
ark-bn254 = "*"
ark-ff = "*"
ark-serialize = "*"
ark-circom = { version = "*", default-features = false }
serde = { version = "*", features = ["derive"] }
serde_json = "*"
anyhow = "*"
