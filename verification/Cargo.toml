[package]
name = "docgen"
version = "0.1.0"
edition = "2021"
publish = false

[dependencies]
textwrap = { version = "*", default-features = false, features = ["smawk"] }
fastrand = "*"
image = "*"
imageproc = "*"
ab_glyph = "*"
clap = { version = "*", features = ["derive"] }
serde = { version = "*", features = ["derive"] }
toml = "*"
photon-rs = { version = "*", default-features = false }
