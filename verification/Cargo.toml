[package]
name = "solana_falcon512"
version = "0.1.0"
edition = "2021"
publish = false

[dependencies]
solana-program-error = "=3.0.1"

[dev-dependencies]
sha3 = "=0.10.9"
pqcrypto-falcon = "=0.4.1"
pqcrypto-traits = "=0.3.5"
