[package]
name = "gitools"
version = "0.1.0"
edition = "2021"
publish = false

[dependencies]
eyre = "0.6"
inquire = "0.7"
pico-args = "0.5"
rand = "0.8"
regex-lite = "0.1"
serde = { version = "1", features = ["derive"] }
spinners = "4"
tabled = "0.17"
toml = "0.8"
