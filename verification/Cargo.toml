[package]
name = "yadict"
version = "0.1.0"
edition = "2021"
publish = false

[dependencies]
adler32 = "1"
anyhow = "1"
clap = { version = "4", default-features = false, features = ["std", "derive", "help", "usage", "error-context"] }
comrak = { version = "0.45", default-features = false }
crossterm = "0.28"
encoding = "0.2"
env_logger = { version = "0.11", default-features = false }
flate2 = "1"
html2text = "0.13"
icu = "1.5"
indicatif = "0.17"
log = "0.4"
memmap2 = "0.9"
minilzo-rs = "0.6"
ratatui = "0.29"
regex = "1"
reqwest = { version = "0.12", default-features = false, features = ["blocking", "rustls-tls"] }
ripemd = "0.1"
salsa20 = "0.10"
serde = { version = "1", features = ["derive"] }
serde_json = "1"
ureq = "2"
whatlang = "0.16"
