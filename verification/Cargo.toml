[package]
name = "runtime_storage"
version = "0.1.0"
edition = "2021"
publish = false

[dependencies]
twox-hash = { version = "2", default-features = false, features = ["xxhash64"] }
blake2-rfc = "0.2"
structopt = "0.3"
