[package]
name = "vulhunt_engine"
version = "0.1.0"
edition = "2021"
publish = false

[dependencies]
anyhow = "1"
bitflags = "2"
full_moon = "1"
mlua = { version = "0.10", features = ["lua54", "vendored", "serialize", "send"] }
num_cpus = "1"
rayon = "1"
serde = { version = "1", features = ["derive"] }
thiserror = "2"
tracing = "0.1"
