[package]
name = "geyser_plugin_cos"
version = "0.1.0"
edition = "2021"
publish = false

[dependencies]
bzip2 = "*"
flate2 = "*"
zstd = "*"
serde = { version = "*", features = ["derive"] }
serde_json = "*"
