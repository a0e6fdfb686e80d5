[package]
name = "cargo-profile"
version = "0.1.0"
edition = "2021"
publish = false

[dependencies]
anyhow = "1"
cargo_metadata = "0.12"
inferno = { version = "0.10", default-features = false }
is_executable = "1"
signal-hook = "0.1"
structopt = "0.3"
tempdir = "0.3"
