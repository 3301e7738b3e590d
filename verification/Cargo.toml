[package]
name = "rkd"
version = "0.1.0"
edition = "2021"
publish = false

[dependencies]
clap = { version = "=4.6.7", features = ["derive"] }
colored = "=2.2.0"
hex = "=0.4.3"
inline_colorization = "=0.1.6"
shell-escape = "=0.1.5"

[dev-dependencies]
nom = "=7.1.3"
