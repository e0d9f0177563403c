[package]
name = "plugin_host"
version = "0.1.0"
edition = "2021"
publish = false

[dependencies]
toml = "0.5"
anyhow = "1"
log = "0.4"
cargo_metadata = "0.15"
indicatif = "0.17"
subprocess = "0.2"
fs_extra = "1"
wasm-bindgen-cli-support = "0.2"
dioxus-core = "0.6"
