[package]
name = "simplicity_inspect"
version = "0.1.0"
edition = "2021"
publish = false

[dependencies]
base64 = "=0.21.7"
# Not used by name. Held to 0.2.0: miniscript 11, which simplicity-lang
# brings in, needs the `hex` module that 0.2.1 no longer has.
bitcoin-internals = "=0.2.0"
clap = { version = "=4.6.7", features = ["derive"] }
elements = { version = "=0.24.1", features = ["serde"] }
layout-rs = "=0.1.3"
serde = { version = "=1.0.229", features = ["derive"] }
serde_json = "=1.0.154"
simplicity-lang = "=0.2.0"
thiserror = "=1.0.69"
