[package]
name = "tsumugi"
version = "0.1.0"
edition = "2021"
publish = false

[dependencies]
clap = { version = "4", features = ["derive"] }
diff-match-patch-rs = "*"
dirs = "*"
dunce = "1"
getrandom = "0.2"
serde = { version = "1", features = ["derive"] }
serde_json = "1"
