[package]
name = "dmemcg_booster"
version = "0.1.0"
edition = "2021"
publish = false

[dependencies]
dbus = { version = "0.9", features = ["vendored"] }
libc = "0.2"
