[package]
name = "easier-tag"
version = "0.1.0"
edition = "2021"
publish = false

[dependencies]
audiotags = "=0.4.1"
gettext-rs = { version = "=0.7.7", features = ["gettext-system"] }
gtk4 = { version = "=0.5.5", features = ["v4_6"] }
libadwaita = "=0.2.1"
log = "=0.4.34"
once_cell = "=1.21.4"
pretty_env_logger = "=0.4.0"
