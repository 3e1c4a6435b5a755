[package]
name = "tailcall_config"
version = "0.1.0"
edition = "2021"
publish = false

[dependencies]
tailcall-chunk = "*"
Inflector = "0.11.4"
convert_case = "*"
pluralizer = "*"
num_cpus = "*"
regex = "*"
indexmap = "*"
tailcall-valid = "*"
serde = { version = "1", features = ["derive"] }
serde_json = "1"
