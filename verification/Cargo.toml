[package]
name = "polka_storage"
version = "0.1.0"
edition = "2021"
publish = false

[dependencies]
sha2 = "0.10"
ipld-core = "0.4"
ipld-dagpb = "0.2"
quick-protobuf = "0.8"
parity-scale-codec = { version = "3", features = ["derive"] }
sp-crypto-hashing = "0.1"
integer-encoding = "4"
serde = { version = "1", features = ["derive"] }
serde_ipld_dagcbor = "0.6"
tokio = { version = "1", features = ["fs", "io-util", "rt-multi-thread", "macros"] }
futures = "0.3"
bytes = "1"
thiserror = "1"
clap = { version = "4", features = ["derive"] }
anyhow = "1"

[dev-dependencies]
tempfile = "3"
