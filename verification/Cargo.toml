[package]
name = "mumsh"
version = "0.1.0"
edition = "2021"
publish = false

[dependencies]
nix = "0.26"
libc = "0.2"
linefeed = "0.6"
colored = "2"
home = "0.5"
termios = "0.3"
