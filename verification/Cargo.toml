[package]
name = "shielded_spend"
version = "0.1.0"
edition = "2021"
publish = false

[dependencies]
ark-ff = "0.4"
ark-ec = "0.4"
ark-std = "0.4"
ark-serialize = "0.4"
ark-relations = "0.4"
ark-r1cs-std = "0.4"
ark-groth16 = "0.4"
ark-crypto-primitives = { version = "0.4", features = ["crh", "sponge", "merkle_tree", "r1cs"] }
ark-mnt4-753 = { version = "0.4", features = ["r1cs"] }
ark-mnt6-753 = { version = "0.4", features = ["r1cs"] }
