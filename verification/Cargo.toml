[package]
name = "media_library"
version = "0.1.0"
edition = "2021"
publish = false

[dependencies]
sha2 = "*"
image = "*"
zip = "*"
uuid = { version = "*", features = ["v4"] }
chrono = "*"
reqwest = { version = "*", default-features = false, features = ["blocking"] }
