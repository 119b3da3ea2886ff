[package]
name = "byond_get"
version = "0.1.0"
edition = "2021"
publish = false

[dependencies]
blake3 = "=1.8.7"
clap = { version = "=4.6.7", features = ["derive"] }
color-eyre = "=0.6.5"
curl = "=0.4.51"
glob = "=0.3.4"
partialzip = { version = "=6.0.0", default-features = false }
tempfile = "=3.27.0"
thiserror = "=2.0.21"
zip = { version = "=7.4.0", default-features = false, features = ["deflate"] }
