[package]
name = "typeahead"
version = "0.1.0"
edition = "2021"
publish = false

[dependencies]
serde = { version = "1", features = ["derive"] }
serde_json = "1"
actix-web = "3"
actix-rt = "1"
derive_more = "0.99"
log = "0.4"
log4rs = "1"
config = "0.11"
