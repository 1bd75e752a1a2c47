[package]
name = "nextpnr"
version = "0.1.0"
edition = "2021"
publish = false

[dependencies]
rustc-hash = "2"
lasso = { version = "0.7", features = ["multi-threaded"] }
rayon = "1"
faer = "*"
dyn-stack = "*"
rustdct = "*"
thiserror = "2"
log = "0.4"
