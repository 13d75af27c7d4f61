[package]
name = "wildflower"
version = "0.1.0"
edition = "2021"
publish = false

[dependencies]
serde = "*"
stable_deref_trait = "*"
yoke = { version = "*", features = ["derive"] }
