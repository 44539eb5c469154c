[package]
name = "i3_tmux_integration"
version = "0.1.0"
edition = "2021"
publish = false

[dependencies]
twoway = "=0.1.8"
unescape = "=0.1.0"
byteorder = "=1.5.0"
libc = "=0.2.191"
nix = "=0.10.0"
mio = "=0.6.23"
mio-uds = "=0.6.8"
i3ipc = "=0.8.4"
pty = "=0.2.2"
termios = "=0.2.2"
tempdir = "=0.3.7"
log = "=0.3.9"
fern = "=0.4.4"
error-chain = "=0.11.0"
