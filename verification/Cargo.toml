[package]
name = "graph_editor"
version = "0.1.0"
edition = "2021"
publish = false

[dependencies]
graph6-rs = "*"
rand = "0.8"
egui = "*"
num-traits = "*"
anyhow = "1"
