[package]
name = "ankimarkable"
version = "0.1.0"
edition = "2021"
publish = false

[dependencies]
anyhow = "1"
anyrender = "0.6"
anyrender_vello_cpu = "0.8"
blitz-dom = "0.2"
blitz-html = "0.2"
blitz-paint = "0.2"
blitz-traits = "0.2"
libc = "0.2"
parley = "0.6"
png = "0.17"
regex = "1"
reqwest = { version = "0.12", default-features = false }
resvg = { version = "0.45", default-features = false }
rusqlite = { version = "0.36", features = ["bundled"] }
tiny-skia = "0.11"
tokio = { version = "1", features = ["rt-multi-thread", "net", "time"] }
usvg = { version = "0.45", default-features = false }
