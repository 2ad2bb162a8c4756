[package]
name = "goboscript"
version = "0.1.0"
edition = "2021"
publish = false

[dependencies]
fxhash = "0.2"
logos = "*"
mlua = { version = "0.10", features = ["lua54", "vendored"] }
