[package]
name = "tsgo_strict_core"
version = "0.1.0"
edition = "2021"
publish = false

[dependencies]
regex = "1"
strip-ansi-escapes = "0.2"
globset = "0.4"
pathdiff = "0.2"
serde = { version = "1", features = ["derive"] }
serde_json = "1"
jsonc-parser = { version = "0.26", features = ["serde"] }
clap = { version = "4", features = ["derive"] }
camino = "1"
ignore = "0.4"
which = "7"
tempfile = "3"
rayon = "1"
thiserror = "2"
