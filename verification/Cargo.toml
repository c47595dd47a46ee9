[package]
name = "merkle_rollup"
version = "0.1.0"
edition = "2021"
publish = false

[dependencies]
ark-crypto-primitives = { version = "=0.5.0", features = ["crh", "sponge", "merkle_tree", "r1cs"] }
ark-bls12-381 = "=0.5.0"
ark-ff = "=0.5.0"
ark-ec = "=0.5.0"
ark-ed-on-bls12-381 = "=0.5.0"
ark-relations = "=0.5.1"
ark-r1cs-std = "=0.5.0"
ark-std = "=0.5.0"
