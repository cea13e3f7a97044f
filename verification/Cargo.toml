[package]
name = "lilufo"
version = "0.1.0"
edition = "2021"
publish = false

[dependencies]
anyhow = "1"
clap = { version = "4", features = ["derive"] }
glob = "0.3"
norad = "*"
plist = "1"
xmltree = { version = "0.10", features = ["attribute-order"] }
