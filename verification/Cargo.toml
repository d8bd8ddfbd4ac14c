[package]
name = "prelude_player"
version = "0.1.0"
edition = "2021"
publish = false

[dependencies]
midly = { version = "0.5", default-features = false, features = ["alloc", "std"] }
midir = "0.10"
gtk4 = { version = "0.9", features = ["v4_12"] }
libadwaita = { version = "0.7", features = ["v1_6"] }
graphene-rs = "0.20"
