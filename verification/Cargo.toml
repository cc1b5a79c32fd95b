[package]
name = "fontchan"
version = "0.1.0"
edition = "2021"
publish = false

[dependencies]
sha2 = "0.10"
base64ct = { version = "1", features = ["alloc"] }
serde = { version = "1", features = ["derive"] }
serde_json = "1"
anyhow = "1"
clap = { version = "4", features = ["derive"] }
toml = "*"
glob = "0.3"
rayon = "1"
tempfile = "3"
wast = "*"
woff = "*"
harfbuzz_rs_now = "*"
allsorts = "*"
