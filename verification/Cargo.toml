[package]
name = "external_sort"
version = "0.1.0"
edition = "2021"
publish = false

[dependencies]
serde = "1"
serde_json = "1"
tempdir = "0.3"

[dev-dependencies]
rand = "0.8"
