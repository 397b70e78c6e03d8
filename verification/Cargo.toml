[package]
name = "jumpto"
version = "0.1.0"
edition = "2021"
publish = false

[dependencies]
home = "*"
anyhow = "*"
colored = "*"
fern = { version = "*", features = ["colored"] }
log = "*"
prettytable-rs = "*"
structopt = "*"

[dev-dependencies]
serde_json = "*"
