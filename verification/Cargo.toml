[package]
name = "vpk_tools"
version = "0.1.0"
edition = "2021"
publish = false

[dependencies]
md5 = "0.7"

[dev-dependencies]
nom = { version = "5", default-features = false, features = ["std"] }
