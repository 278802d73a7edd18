[package]
name = "efistub_update"
version = "0.1.0"
edition = "2021"
publish = false

[dependencies]
glob = "*"
notify = "*"
serde = { version = "*", features = ["derive"] }
structopt = "*"
toml = "*"
