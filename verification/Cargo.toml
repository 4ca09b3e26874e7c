[package]
name = "wral"
version = "0.1.0"
edition = "2021"
publish = false

[dependencies]
mkit = "=0.3.0"
log = "=0.4.34"
arbitrary = { version = "=0.4.7", features = ["derive"] }
tempfile = "=3.27.0"
rand = "=0.7.3"
structopt = "=0.3.26"
