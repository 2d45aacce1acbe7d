[package]
name = "samply"
version = "0.1.0"
edition = "2021"
publish = false

[dependencies]
memchr = "2.5"
object = { version = "0.30", default-features = false, features = ["read"] }
serde = "1"
serde_json = "1"

[dev-dependencies]
debugid = "0.8"
