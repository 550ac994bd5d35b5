[package]
name = "asciidoctrine"
version = "0.1.0"
edition = "2021"
publish = false

[dependencies]
pest = "=2.9.4"
pest_derive = "=2.9.4"
anyhow = "=1.0.104"
log = "=0.4.34"
simple_logger = "=5.2.0"

[dev-dependencies]
pest_meta = "=2.9.4"
pest_vm = "=2.9.4"
