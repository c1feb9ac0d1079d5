[package]
name = "d2sw_tiled_project"
version = "0.1.0"
edition = "2021"
publish = false

[dependencies]
byteorder = "1"
memchr = "2"
glam = "*"
rand = "0.8"
png = "0.17"
serde = { version = "1", features = ["derive"] }
toml = "0.5"
clap = { version = "4", features = ["derive"] }
const_format = "0.2"
array-macro = "2"
