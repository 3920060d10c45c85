[package]
name = "plantuml_prerender"
version = "0.1.0"
edition = "2021"
publish = false

[dependencies]
aho-corasick = "0.7"
uuid = "1"
anyhow = "1"
log = "0.4"
mdbook = { version = "0.4", default-features = false }
tempfile = "3"
