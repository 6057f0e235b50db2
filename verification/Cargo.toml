[package]
name = "listen_timers"
version = "0.1.0"
edition = "2021"
publish = false

[dependencies]
axerrno = "*"
foldhash = "*"
kernel_guard = "*"
priority-queue = "*"
smoltcp = "0.12.0"
