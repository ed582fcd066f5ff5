[package]
name = "translog"
version = "0.1.0"
edition = "2021"
publish = false

[dependencies]
anyhow = "1"
ark-bn254 = "0.5"
ark-crypto-primitives = { version = "0.5", features = ["crh", "r1cs", "sponge"] }
ark-ff = "0.5"
ark-groth16 = "0.5"
ark-grumpkin = "0.5"
ark-r1cs-std = "0.5"
ark-relations = "0.5"
ff = "0.13"
nova-snark = "0.75"
plonky2 = "1.1"
rand = "0.8"
rayon = "1"
sha2 = "0.10"
