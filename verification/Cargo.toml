[package]
name = "size_table_generator"
version = "0.1.0"
edition = "2021"
publish = false

[dependencies]
calamine = "*"
csv = "*"
dirs = "*"
reqwest = { version = "*", default-features = false, features = ["blocking", "json", "rustls-tls"] }
serde = { version = "*", features = ["derive"] }
serde_json = "*"
