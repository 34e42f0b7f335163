[package]
name = "beatmap_tools"
version = "0.1.0"
edition = "2021"
publish = false

[dependencies]
anyhow = "*"
clap = { version = "*", features = ["derive"] }
md5 = "*"
osu-db = "*"
osu-file-parser = "*"
rayon = "*"
rosu-pp = "*"
rust_decimal = "*"
whoami = "*"
