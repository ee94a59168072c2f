[package]
name = "libpealimrs"
version = "0.1.0"
edition = "2021"
publish = false

[dependencies]
unicode-normalization = "0.1"
regex = "1"
prost = "*"
rmp-serde = "1"
serde = { version = "1", features = ["derive"] }
