[package]
name = "wasset"
version = "0.1.0"
edition = "2021"
publish = false

[dependencies]
fxhash = "*"
litrs = "*"
proc-macro2 = "*"
quote = "*"
rmp-serde = "*"
serde = { version = "*", features = ["derive"] }
thiserror = "*"
toml = "*"
uuid = { version = "*", features = ["v4", "serde"] }
wasm-encoder = "*"
wasmparser = "*"
