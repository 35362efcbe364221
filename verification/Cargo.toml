[package]
name = "roulette"
version = "0.1.0"
edition = "2021"
publish = false

[dependencies]
bcrypt = "*"
rand = "0.8"
lettre_email = "0.9"

[dev-dependencies]
serde_json = "1"
