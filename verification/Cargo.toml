[package]
name = "boincview"
version = "0.1.0"
edition = "2021"
publish = false

[dependencies]
chrono = "0.4"
rust-ini = "*"
futures = "0.3"
tokio = { version = "1", features = ["full"] }
glib = "0.15"
gio = "0.15"
gtk = "0.15"
