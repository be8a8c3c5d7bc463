[package]
name = "trillian"
version = "0.1.0"
edition = "2021"
publish = false

[dependencies]
axum = "*"
bytemuck = "1"
lru = "*"
memmap2 = "0.9"
rand = "0.10"
rayon = "1"
regex = "1"
rustc-hash = "2"
serde = { version = "1", features = ["derive"] }
serde_json = "1"
spargebra = "*"
string-interner = "*"
tokio = { version = "1", features = ["full"] }
tokio-stream = "0.1"
