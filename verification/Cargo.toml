[package]
name = "profiler_core"
version = "0.1.0"
edition = "2021"
publish = false

[dependencies]
flate2 = "*"
serde = { version = "*", features = ["derive"] }
serde_json = "*"
walkdir = "*"
napi = "*"
napi-derive = "*"
swc_common = "*"
swc_ecma_ast = "*"
swc_ecma_parser = "*"
