[package]
name = "the_dagwood"
version = "0.1.0"
edition = "2021"
publish = false

[dependencies]
serde = { version = "=1.0.229", features = ["derive"] }
serde_json = "=1.0.154"
serde_yaml = "=0.9.34"
tokio = { version = "=1.54.1", features = ["rt-multi-thread", "macros", "sync", "time"] }
tokio-util = "=0.7.20"
async-trait = "=0.1.92"
thiserror = "=1.0.69"
anyhow = "=1.0.104"
tracing = "=0.1.44"
wasmparser = "=0.263.0"
wasmtime = { version = "=45.0.3", default-features = false, features = ["cranelift", "runtime", "std", "component-model", "threads", "wat"] }
wasmtime-wasi = "=45.0.3"

[dev-dependencies]
wat = "=1.263.0"
