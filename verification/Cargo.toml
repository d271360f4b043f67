[package]
name = "version_lens"
version = "0.1.0"
edition = "2021"
publish = false

[dependencies]
futures = "0.3"
semver = "1"
serde_json = "1"
