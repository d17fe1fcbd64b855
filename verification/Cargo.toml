[package]
name = "scsync"
version = "0.1.0"
edition = "2021"
publish = false

[dependencies]
byteorder = "=1.5.0"
tiny-keccak = "=1.5.0"
rust-crypto = "=0.2.36"
rand = "=0.5.6"
ring = "=0.17.14"
hex = "=0.3.2"
serde = "1"
serde_derive = "1"
serde_cbor = "=0.11.2"
tokio = "0.1"
tokio-io = "0.1"
futures = "0.1"
bytes = "0.4"
walkdir = "2"
structopt = "0.2"
env_logger = "0.5"
log = "0.4"
