[package]
name = "json_match"
version = "0.1.0"
edition = "2021"
publish = false

[dependencies]
regex = "=1.13.1"
bitvec = "=1.1.1"
thiserror = "=2.0.21"
serde = { version = "=1.0.229", features = ["derive"] }
compact_str = { version = "=0.10.0", features = ["serde"] }

[dev-dependencies]
serde_json = "1"
rand = "*"
