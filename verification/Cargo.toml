[package]
name = "basinski"
version = "0.1.0"
edition = "2021"
publish = false

[dependencies]
anyhow = "=1.0.104"
clap = { version = "=4.6.7", features = ["derive"] }
clap_complete = "=4.6.11"
# tract-onnx reaches kstring, whose later releases need a newer compiler
kstring = "=2.0.2"
serde = { version = "=1.0.229", features = ["derive"] }
serde_json = "=1.0.154"
tract-onnx = "=0.21.19"
