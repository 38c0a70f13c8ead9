[package]
name = "promise_core"
version = "0.1.0"
edition = "2021"
publish = false

[dependencies]
frost-core = { version = "1", features = ["internals"] }
frost-secp256k1 = "1"
k256 = "0.13"
rand_core = { version = "0.6", features = ["getrandom"] }
tiny-keccak = { version = "2", features = ["keccak"] }
