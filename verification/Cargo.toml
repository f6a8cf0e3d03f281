[package]
name = "carp"
version = "0.1.0"
edition = "2021"
publish = false

[dependencies]
roxmltree = "*"
append-only-vec = "*"
piet-common = "*"
kurbo = "*"
mtpng = "*"
clap = { version = "*", features = ["derive", "env"] }
csv = "*"
tts-external-api = "*"
