[package]
name = "bilge_split"
version = "0.1.0"
edition = "2021"
publish = false

[dependencies]
proc-macro-error = { version = "=1.0.4", default-features = false }
quote = "=1.0.47"
syn = { version = "=2.0.119", features = ["full"] }
