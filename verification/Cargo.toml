[package]
name = "kibeurre"
version = "0.1.0"
edition = "2021"
publish = false

[dependencies]
sha3 = "0.10"
shake = "*"
hex = "0.4"
rand = "0.9"
nist-pqc-seeded-rng = "*"
crossterm = "0.28"
ratatui = "0.29"
csv = "1"
