[package]
name = "universal_wasm_loader"
version = "0.1.0"
edition = "2021"
publish = false
rust-version = "1.95"

[dependencies]
anyhow = "=1.0.104"
once_cell = "=1.21.4"
regex-lite = "=0.1.9"
reqwest = { version = "=0.12.28", default-features = false, features = ["rustls-tls"] }
tokio = { version = "=1.54.1", features = ["full"] }
wasmtime = { version = "=46.0.3", default-features = false, features = ["cranelift", "wat", "runtime", "std"] }
