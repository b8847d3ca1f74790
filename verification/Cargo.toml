[package]
name = "crossy_multi_core"
version = "0.1.0"
edition = "2021"
publish = false

[dependencies]
froggy-rand = "=0.3.0"
deterministic-hash = "=1.0.2"
hashers = "=1.0.1"
smallvec = "1"
