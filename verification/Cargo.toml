[package]
name = "interference_generator"
version = "0.1.0"
edition = "2021"
publish = false

[dependencies]
email_address = "*"
serde = { version = "*", features = ["derive"] }
tera = "*"
toml = "*"
