[package]
name = "gitu"
version = "0.1.0"
edition = "2021"
publish = false

[dependencies]
ansi-to-tui = "*"
anstyle-parse = "0.2"
cached = "*"
clap = { version = "4", features = ["derive"] }
crossterm = "*"
git2 = "*"
imara-diff = "0.2"
ratatui = "*"
regex = "1"
shell-words = "1"
sysinfo = "*"
tui-prompts = "*"
unicode-segmentation = "1"
