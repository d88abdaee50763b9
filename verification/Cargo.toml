[package]
name = "lolcat"
version = "0.1.0"
edition = "2021"
publish = false

[dependencies]
atty = "0.2"
clap = "=3.0.0-beta.2"
clap_derive = "=3.0.0-beta.2"
rand = "0.8"
