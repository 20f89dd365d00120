[package]
name = "audiosilence"
version = "0.1.0"
edition = "2021"
publish = false

[dependencies]
cpal = "0.18"
hound = "=3.5.1"
libc = "0.2"
midir = "*"
plugin_host = "=0.1.0"
ringbuf = "=0.4.8"
tokio = { version = "1", features = ["macros", "rt-multi-thread"] }
wide = "=1.7.1"
