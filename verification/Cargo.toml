[package]
name = "xui"
version = "0.1.0"
edition = "2021"
publish = false

[dependencies]
ahash = "*"
petgraph = "*"
rstar = "*"
itertools = "*"
uuid = { version = "*", features = ["v4"] }
mint = "*"
earcutr = "*"
parking_lot = "*"
cssparser = "*"
csscolorparser = "*"
quick-xml = "*"
serde_json = "*"
