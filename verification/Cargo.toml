[package]
name = "egui_graphs"
version = "0.1.0"
edition = "2021"
publish = false

[dependencies]
egui = { version = "0.27", default-features = false, features = ["serde"] }
petgraph = { version = "0.6", default-features = false, features = ["stable_graph"] }
rand = "0.8"
serde = { version = "1", features = ["derive"] }
