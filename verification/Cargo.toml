[package]
name = "typm"
version = "0.1.0"
edition = "2021"
publish = false

[dependencies]
blake3 = { version = "1", default-features = false }
clap = { version = "4", features = ["derive"] }
clap_complete = "4"
directories = "*"
git2 = { version = "=0.21.0", features = ["https", "ssh", "vendored-openssl"] }
indicatif = "*"
pathdiff = "*"
petgraph = "*"
serde = { version = "1", features = ["derive"] }
snafu = "*"
tempfile = "3"
toml = "*"
toml_edit = "*"
typst-syntax = "*"
url = "2"
walkdir = "2"
