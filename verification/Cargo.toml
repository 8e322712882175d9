[package]
name = "folder_acl_viewer"
version = "0.1.0"
edition = "2021"
publish = false

[dependencies]
csv = "=1.4.0"
tokio = { version = "=1.54.1", features = ["rt-multi-thread", "fs"] }
eframe = { version = "=0.37.0", default-features = false, features = ["glow", "default_fonts", "x11"] }
egui_extras = "=0.37.0"
rfd = { version = "=0.17.2", default-features = false, features = ["xdg-portal"] }
