[package]
name = "rbxlx_to_rojo"
version = "0.1.0"
edition = "2021"
publish = false

[dependencies]
rbx_binary = "*"
rbx_xml = "*"
rbx_dom_weak = "*"
log = "0.4"
env_logger = "*"
rfd = { version = "*", default-features = false, features = ["xdg-portal", "tokio"] }
eframe = { version = "*", default-features = false, features = ["glow", "default_fonts", "x11"] }
