[package]
name = "afterburner_wasi"
version = "0.1.0"
edition = "2021"
publish = false

[dependencies]
atomic-wait = "=1.1.0"
base64 = "=0.22.1"
flate2 = "=1.1.10"
getrandom = "=0.2.17"
kovan-map = "0.1"
serde_json = "=1.0.154"
tokio = { version = "=1.54.1", features = ["rt", "time"] }
wasmparser = "=0.246.2"
wasmtime = { version = "=44.0.3", default-features = false, features = ["runtime", "cranelift", "std"] }
wasmtime-wasi = { version = "=44.0.3", default-features = false, features = ["p1"] }
