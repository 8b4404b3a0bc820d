[package]
name = "todo"
version = "0.1.0"
edition = "2021"
publish = false

[dependencies]
chrono = { version = "0.4", features = ["serde"] }
daggy = { version = "0.8", features = ["stable_dag", "serde-1"] }
bisection = "0.1"
humantime = "2"
ansi_term = "0.12"
textwrap = "0.16"
serde = { version = "1", features = ["derive"] }
serde_json = "1"
thiserror = "1"
scrawl = "*"

[dev-dependencies]
itertools = "*"
