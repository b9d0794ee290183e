[package]
name = "progress_engine"
version = "0.1.0"
edition = "2021"
publish = false

[dependencies]
sha2 = "*"
facet = "*"
facet-json = "*"
facet-toml = "*"
rand = "*"
rand_chacha = "*"
libm = "*"
anyhow = "*"
thiserror = "*"
flate2 = "*"
ureq = "*"
