[package]
name = "tightbeam-ext"
version = "0.1.0"
edition = "2021"
publish = false

[dependencies]
sha3 = "=0.10.9"
tightbeam-rs = "*"
tokio = { version = "1", features = ["rt-multi-thread", "macros", "sync", "time", "net"] }
futures-util = "0.3"
async-trait = "0.1"
ark-ff = "*"
ark-std = "*"
ark-serialize = "*"
stoffelcrypto = "*"
stoffelnet = "*"
wasm-bindgen = "*"
gloo-net = "*"

[dev-dependencies]
der = { version = "=0.7.10", features = ["alloc"] }
