[package]
name = "target_match"
version = "0.4.0"
edition = "2021"
publish = false

[dependencies]
geo = "*"
serde = { version = "1", features = ["derive"] }
skymath = "*"
thiserror = "*"
