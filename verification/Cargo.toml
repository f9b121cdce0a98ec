[package]
name = "svgy"
version = "0.1.0"
edition = "2021"
publish = false

[dependencies]
quick-xml = "=0.42.0"
anyhow = "=1.0.104"
clap = { version = "=4.6.7", features = ["derive"] }
oxipng = { version = "=10.2.1", default-features = false, features = ["zopfli", "parallel"] }
oxvg_ast = { version = "=0.0.9", features = ["roxmltree"] }
oxvg_optimiser = "=0.0.9"
oxvg_path = "=0.0.9"
resvg = { version = "=0.49.0", default-features = false }
svgtypes = "=0.16.1"
