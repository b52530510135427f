[package]
name = "rbedic"
version = "0.2.0"
edition = "2021"
publish = false

[dependencies]
clap = "2"
dirs = "1"
env_logger = "0.4"
gdk = "0.8"
gtk = "0.4"
log = "0.4"

[dev-dependencies]
regex = "1"
