[package]
name = "crn"
version = "0.1.0"
edition = "2021"

[dependencies]
bimap = "0.6"
itertools = "0.10"
nom = "7"
rand = "0.8"
thiserror = "1"
