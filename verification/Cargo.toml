[package]
name = "qubit-infra-dependency"
version = "0.1.0"
edition = "2021"
publish = false

[dependencies]
camino = "1"
cargo_metadata = "*"
clap = { version = "4", features = ["derive"] }
semver = "1"
serde = { version = "1", features = ["derive"] }
serde_json = "1"
thiserror = "*"
toml = "*"
toml_edit = "*"
url = "2"
