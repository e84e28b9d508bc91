[package]
name = "ordserv"
version = "0.1.0"
edition = "2021"
publish = false

[dependencies]
rand = "0.8"
csv = "1"
serde = { version = "1", features = ["derive"] }
rmp-serde = "1"
log = "0.4"
simple_logger = "4"
clap = { version = "4", features = ["derive"] }
rayon = "1"
tokio = { version = "1", features = ["rt-multi-thread", "macros", "process", "io-util", "fs", "time", "sync", "net"] }
sha2 = "0.10"
colored = "2"
priority-queue = "1"
once_cell = "1"
bytes = "1"
libc = "0.2"
enum-iterator = "1"

[dev-dependencies]
expect-test = "1"
