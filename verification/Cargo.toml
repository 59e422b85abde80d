[package]
name = "srs_solver"
version = "0.1.0"
edition = "2021"

[dependencies]
serde = { version = "1", features = ["derive"] }

[dev-dependencies]
rand = { version = "0.8", features = ["small_rng"] }
