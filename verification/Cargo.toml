[package]
name = "handlr"
version = "0.1.0"
edition = "2021"
publish = false

[dependencies]
shlex = "*"
mime = "*"
url = "*"
xdg = "*"
xdg-mime = "*"
confy = "*"
serde = { version = "*", features = ["derive"] }
thiserror = "*"
atty = "*"
ascii_table = "*"
clap = { version = "*", features = ["derive"] }
