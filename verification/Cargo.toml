[package]
name = "rofi_recent"
version = "0.1.0"
edition = "2021"
publish = false

[dependencies]
clap = { version = "*", features = ["derive"] }
dirs = "*"
fork = "*"
htmlescape = "*"
itertools = "*"
serde = { version = "*", features = ["derive"] }
serde-xml-rs = "*"
thiserror = "*"
url = "*"
urlencoding = "*"
