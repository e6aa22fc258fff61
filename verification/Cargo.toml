[package]
name = "nxpch"
version = "0.1.0"
edition = "2021"
publish = false

[dependencies]
capstone = "=0.14.0"
clap = { version = "=4.6.7", features = ["derive"] }
clap-stdin = "=0.8.1"
ere = "*"
indexmap = "=2.14.2"
json5 = "=1.3.7"
json5_nodes = "=2.0.2"
keystone = "=0.9.0"
logos = "*"
miette = { version = "=7.6.0", features = ["fancy"] }
parse_int = "=0.9.0"
serde = { version = "=1.0.229", features = ["derive"] }
serde_with = "=3.24.0"
smallvec = "=1.16.4"
strsim = "=0.11.1"
subslice-offset = "*"
tempfile = "=3.27.0"
thiserror = "=2.0.21"
zip = "=9.2.2"
