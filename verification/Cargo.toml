[package]
name = "sandpack_cdn"
version = "0.1.0"
edition = "2021"
publish = false

[dependencies]
axum = "0.8"
base64-simd = "0.8"
dotenvy = "0.15"
flate2 = "1"
lru = "*"
nanoid = "0.4"
node-semver = "2"
parking_lot = "0.12"
regex = "1"
reqwest = { version = "0.12", features = ["gzip", "brotli", "deflate"] }
reqwest-middleware = "0.4"
reqwest-retry = "0.7"
rmp-serde = "1"
rusqlite = { version = "*", features = ["bundled"] }
serde = { version = "1", features = ["derive"] }
serde_json = "1"
stacker = "0.1"
swc_core = { version = "*", features = ["common", "ecma_ast", "ecma_codegen", "ecma_parser", "ecma_transforms", "ecma_transforms_module", "ecma_transforms_optimization", "ecma_utils", "ecma_visit", "ecma_helpers_inline"] }
tar = "0.4"
thiserror = "2"
tokio = { version = "1", features = ["full"] }
tower-http = { version = "0.6", features = ["compression-gzip", "cors", "trace"] }
tracing = "0.1"
tracing-subscriber = "0.3"
tracing-tree = "0.4"
