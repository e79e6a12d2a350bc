[package]
name = "shellcheck_all"
version = "0.1.0"
edition = "2021"
publish = false

[dependencies]
anyhow = "*"
clap = { version = "*", features = ["derive"] }
clio = { version = "*", features = ["clap-parse"] }
file-format = { version = "*", features = ["reader"] }
ignore = "*"
num_cpus = "*"
tokio = { version = "*", features = ["macros", "process", "rt", "sync"] }
which = "*"
