[package]
name = "shm-pbx"
version = "0.1.0"
edition = "2021"
publish = false

[dependencies]
clap = { version = "4", features = ["cargo"] }
hashbrown = "*"
io-uring = "*"
libc = "0.2"
linux-futex = "*"
memmap2 = "*"
quick-error = "2"
serde = { version = "1", features = ["derive"] }
serde_json = "1"
slotmap = "1"
tempfile = "3"
tokio = { version = "1", features = ["macros", "net", "rt", "sync"] }
uapi = "*"
