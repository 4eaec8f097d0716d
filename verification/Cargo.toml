[package]
name = "cargo-remote"
version = "0.2.0"
edition = "2021"
publish = false

[dependencies]
cargo_metadata = "0.14"
log = "0.4"
simple_logger = "4"
structopt = "0.3"
toml = "0.5"
toml_edit = "0.19"
xdg = "2"
