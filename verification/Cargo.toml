[package]
name = "mwr"
version = "0.1.0"
edition = "2021"
publish = false

[dependencies]
chrono = "*"
clap = { version = "*", features = ["derive"] }
diesel = { version = "*", features = ["sqlite", "r2d2"] }
diesel_migrations = "*"
directories = "*"
feed-rs = "*"
libsqlite3-sys = { version = "*", features = ["bundled"] }
log = "*"
rand = "*"
ureq = "*"
url = "*"
webbrowser = "*"
