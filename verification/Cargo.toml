[package]
name = "accumulation"
version = "0.1.0"
edition = "2021"
publish = false

[dependencies]
ark-ff = "0.4"
ark-ed-on-bls12-381 = "0.4"
ark-crypto-primitives = { version = "0.4", features = ["crh", "sponge", "prf", "r1cs"] }
ark-relations = "0.4"
ark-r1cs-std = "0.4"
ark-std = "0.4"
ark-serialize = "0.4"
