[package]
name = "kronos_dapp"
version = "0.1.0"
edition = "2021"
publish = false

[dependencies]
anchor-lang = "=1.2.1"

[dev-dependencies]
sha2 = "0.10"
