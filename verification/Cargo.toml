[package]
name = "stormcrow"
version = "0.1.0"
edition = "2021"
publish = false

[dependencies]
dbus = "*"
dbus-crossroads = "*"
mio = { version = "*", features = ["os-poll", "os-ext"] }
udev = "*"
virt = "*"
