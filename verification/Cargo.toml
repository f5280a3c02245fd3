[package]
name = "chipbreaker-core"
version = "0.1.0"
edition = "2021"
publish = false

[dependencies]
quick-xml = "*"
zip = { version = "*", default-features = false, features = ["deflate"] }
ryu = "1"
robust = "1"
rand = "0.9"
