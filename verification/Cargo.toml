[package]
name = "weighted_digits"
version = "0.1.0"
edition = "2021"
publish = false

[dependencies]
actix-web = "*"
csv = "*"
rand = "*"
serde = { version = "*", features = ["derive"] }
