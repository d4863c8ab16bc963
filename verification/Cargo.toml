[package]
name = "jdx-tar"
version = "1.0.0"
edition = "2021"
publish = false

[dependencies]
filetime = "0.2"

[dev-dependencies]
tar = "0.4"
