[package]
name = "dynds"
version = "0.1.0"
edition = "2021"
publish = false

[dependencies]
diesel = { version = "=2.3.13", features = ["postgres", "serde_json"] }
diesel-dynamic-schema = "=0.2.4"
serde_json = "=1.0.151"
