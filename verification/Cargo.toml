[package]
name = "festive-bot"
version = "0.1.0"
edition = "2021"
publish = false

[dependencies]
chrono = "0.4"
json = "0.12"
num = "0.4"
ctrlc = "3"
reqwest = { version = "0.12", default-features = false, features = ["blocking", "multipart"] }
