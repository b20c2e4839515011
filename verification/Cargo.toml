[package]
name = "oxarch"
version = "0.1.0"
edition = "2021"
publish = false

[dependencies]
anyhow = "=1.0.104"
clap = { version = "=4.6.7", features = ["derive"] }
ignore = "=0.4.34"
oxc_allocator = "=0.143.0"
oxc_ast = "=0.143.0"
oxc_parser = "=0.143.0"
oxc_span = "=0.143.0"
petgraph = "=0.8.3"
rayon = "=1.12.0"
serde = { version = "=1.0.229", features = ["derive"] }
serde_json = "=1.0.154"
walkdir = "=2.5.0"
