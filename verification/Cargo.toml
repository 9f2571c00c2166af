[package]
name = "bls381_hash"
version = "0.1.0"
edition = "2021"
publish = false

[dependencies]
solana-program-error = "*"
solana-define-syscall = "*"
