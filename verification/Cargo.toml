[package]
name = "generic_game"
version = "0.1.0"
edition = "2021"
publish = false

[dependencies]
hdk = "*"
serde = { version = "1", features = ["derive"] }
serde_derive = "1"
serde_json = "1"
reqwest = { version = "0.12", default-features = false, features = ["blocking", "json"] }
structopt = "0.3"
linefeed = "0.6"
