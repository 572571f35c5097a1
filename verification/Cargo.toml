[package]
name = "nary_lib"
version = "0.1.0"
edition = "2021"
publish = false

[dependencies]
anyhow = "=1.0.104"
bidir-map = "=1.0.0"
flate2 = "1"
git2 = "=0.21.0"
hyper = "=0.10.16"
hyper-native-tls = "=0.3.0"
indexmap = "=2.14.2"
percent-encoding = "=1.0.1"
petgraph = "=0.8.3"
semver_rs = "=0.2.0"
serde_json = { version = "=1.0.154", features = ["preserve_order"] }
tar = "=0.4.46"
