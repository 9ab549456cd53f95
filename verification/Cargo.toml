[package]
name = "gh_difftool"
version = "0.1.0"
edition = "2021"
publish = false

[dependencies]
anyhow = "=1.0.104"
base64 = "=0.23.1"
clap = { version = "=4.6.7", features = ["derive", "env"] }
gix-config = "=0.47.1"
parse_link_header = "=0.4.1"
serde = { version = "=1.0.229", features = ["derive"] }
serde_json = "=1.0.151"
shlex = "=2.0.1"
tempfile = "=3.27.0"
tokio = { version = "=1.53.2", features = ["macros", "rt-multi-thread", "process", "io-util"] }
url = "=2.5.8"
which = "=8.0.6"
