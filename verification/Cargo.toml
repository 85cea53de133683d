[package]
name = "findex_cache"
version = "0.1.0"
edition = "2021"
publish = false

[dependencies]
rand = "*"
emojis = "*"
convert_case = "*"
html_parser = "*"
serde = { version = "*", features = ["derive"] }
serde_json = "*"
shellexpand = "*"
thiserror = "*"
ureq = { version = "*", default-features = false, features = ["json"] }
