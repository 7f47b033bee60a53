[package]
name = "line_items"
version = "0.1.0"
edition = "2021"
publish = false

[dependencies]
rust_decimal = "*"
serde = { version = "*", features = ["derive"] }
serde_json = "*"
serde_repr = "*"
