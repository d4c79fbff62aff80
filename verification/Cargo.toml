[package]
name = "resmack"
version = "0.1.0"
edition = "2021"
publish = false

[dependencies]
rand = "=0.7.3"
rand_pcg = "=0.2.1"
fnv = "=1.0.7"
twox-hash = "1"

[dev-dependencies]
regex = "1"
