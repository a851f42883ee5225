[package]
name = "receipt_split"
version = "0.1.0"
edition = "2021"
publish = false

[dependencies]
rust_decimal = "1"
thiserror = "2"
derive_more = { version = "2", features = ["as_ref", "display"] }
