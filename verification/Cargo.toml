[package]
name = "zk_ballot"
version = "0.1.0"
edition = "2021"
publish = false

[dependencies]
halo2_proofs = "0.3"
halo2curves = "0.4"
ff = "0.13"
hex = "0.4"
rand = "0.8"
serde = { version = "1", features = ["derive"] }
negentropy = "*"
