[package]
name = "micspoofing"
version = "0.1.0"
edition = "2021"
publish = false

[dependencies]
jni = { version = "0.21", default-features = false }
libfuzzer-sys = { version = "0.4", features = ["arbitrary-derive"] }
