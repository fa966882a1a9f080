[package]
name = "iforgor"
version = "0.1.0"
edition = "2021"
publish = false

[dependencies]
anyhow = "1"
base16ct = { version = "0.2", features = ["alloc"] }
clap = { version = "4", features = ["derive"] }
ctrlc = "3"
glob = "0.3"
home = "0.5"
ratatui = "0.28"
serde = { version = "1", features = ["derive"] }
sha3 = "0.10"
snailquote = "0.3"
tempfile = "3"
toml = "0.8"
