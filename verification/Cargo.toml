[package]
name = "concurrent_interner"
version = "0.1.0"
edition = "2021"
publish = false

[dependencies]
ahash = "0.8"
criterion = { version = "0.5", default-features = false }
crossbeam = "0.8"
dashmap = "5.5"
rustc-hash = "1.1"
typed-arena = "2.0"
walkdir = "2"
