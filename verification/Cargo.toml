[package]
name = "duff"
version = "0.1.0"
edition = "2021"
publish = false

[dependencies]
byte-unit = "*"
chrono = "*"
clap = { version = "*", features = ["derive"] }
console = "*"
crossbeam-channel = "*"
crossbeam-deque = "*"
crossbeam-utils = "*"
indicatif = "*"
pretty-bytes = "*"
rayon = "*"
serde = { version = "*", features = ["derive"] }
serde_json = "*"
shh = "*"
textwrap = "*"
twox-hash = "*"
