[package]
name = "orrient"
version = "0.1.0"
edition = "2021"
publish = false

[dependencies]
quick-xml = "=0.36.2"
typed-path = "=0.9.3"
slab_tree = "=0.3.2"
petgraph = { version = "=0.6.5", default-features = false }
byteorder = "=1.5.0"
zip = { version = "=2.6.1", default-features = false, features = ["deflate"] }
serde = { version = "=1.0.229", features = ["derive"] }
serde_json = "=1.0.154"
dirs = "=5.0.1"
mumblelink_reader = "*"
crossbeam-channel = "*"
bincode = "1"
rdev = "*"
