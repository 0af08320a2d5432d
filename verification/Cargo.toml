[package]
name = "blaise"
version = "0.1.0"
edition = "2021"
publish = false

[dependencies]
bitvec = "1"
rayon = "1"
serde = { version = "1", features = ["derive"] }
csv = "1"
zip = { version = "*", default-features = false, features = ["deflate"] }
memmap2 = "0.9"
chrono = { version = "0.4", default-features = false, features = ["clock"] }
thiserror = "2"
