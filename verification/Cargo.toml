[package]
name = "block_requests"
version = "0.1.0"
edition = "2021"
publish = false

[dependencies]
bytes = "1"
parity-scale-codec = "3"
prost = { version = "0.13", features = ["derive"] }
futures = "0.3"
futures-timer = "3"
wasm-timer = "0.2"
libp2p = "0.56"
log = "0.4"
void = "1"
