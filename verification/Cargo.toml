[package]
name = "plate_solver"
version = "0.1.0"
edition = "2021"
publish = false

[dependencies]
async-trait = "0.1"
clap = { version = "4", features = ["derive"] }
half = "2"
image = { version = "=0.25.1", default-features = false }
kiddo = "4"
memmap2 = "0.9"
nalgebra = "0.32"
prost = "0.12"
prost-types = "0.12"
serde = { version = "1", features = ["derive"] }
serde_json = "1"
tokio = { version = "1", features = ["macros", "rt-multi-thread"] }
tonic = "0.11"
tonic-web = "0.11"
