[package]
name = "xml_to_json"
version = "0.1.0"
edition = "2021"
publish = false

[dependencies]
roxmltree = "*"

[dev-dependencies]
serde_json = { version = "*", features = ["preserve_order"] }
quick-xml = { version = "*", features = ["serialize"] }
