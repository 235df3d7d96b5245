[package]
name = "annot"
version = "0.1.0"
edition = "2021"
publish = false

[dependencies]
anyhow = "1"
clap = { version = "4", features = ["derive"] }
fs4 = "*"
gix = { version = "*", default-features = false, features = ["sha1"] }
imara-diff = "*"
serde = { version = "1", features = ["derive"] }
serde_json = "1"
thiserror = "2"
ulid = { version = "*", features = ["serde"] }
