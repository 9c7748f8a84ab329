[package]
name = "openapi-struct-gen"
version = "0.1.0"
edition = "2021"
publish = false

[dependencies]
check_keyword = "=0.4.1"
codegen = "=0.1.3"
heck = "=0.5.0"
indexmap = "=1.9.3"
openapiv3 = "=1.0.4"
serde_json = "=1.0.154"
serde_yaml = "=0.9.34"
