[package]
name = "shielded_pool"
version = "0.1.0"
edition = "2021"
publish = false

[dependencies]
sapling-crypto = "=0.9.0"
zip32 = "=0.3.0"
zcash_primitives = "=0.31.0"
zcash_proofs = { version = "=0.31.0", default-features = false }
bellman = "=0.15.0"
groth16 = "=0.2.0"
pairing = "=0.24.0"
ff = "=0.14.0"
group = "=0.14.0"
bls12_381 = "=0.9.0"
jubjub = "=0.11.1"
redjubjub = "=0.9.0"
rand = "=0.10.3"
bigint = "=4.4.3"
ethereum-types = { version = "=0.16.0", default-features = false }
