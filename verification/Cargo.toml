[package]
name = "osu_unplayed"
version = "0.1.0"
edition = "2021"
publish = false

[dependencies]
ansi_term = "*"
argparse = "*"
compress-tools = "*"
osu-db = "*"
rusqlite = { version = "*", features = ["bundled"] }
