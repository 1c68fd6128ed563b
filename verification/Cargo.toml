[package]
name = "vst_viseme"
version = "0.1.0"
edition = "2021"
publish = false

[dependencies]
rosc = "=0.11.4"
serde_json = "=1.0.154"
egui_autocomplete = "*"
rfd = "*"
