[package]
name = "xml_dict"
version = "0.1.0"
edition = "2021"
publish = false

[dependencies]
quick-xml = "=0.36.2"
pyo3 = "=0.22.6"
