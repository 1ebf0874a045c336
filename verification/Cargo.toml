[package]
name = "symbol_db"
version = "0.1.0"
edition = "2021"
publish = false

[dependencies]
oxc = { version = "0.30", features = ["semantic"] }
rustc-hash = "2"
