[package]
name = "ptrack"
version = "0.1.0"
edition = "2021"
publish = false

[dependencies]
egui = "*"
nice-plug = "*"
nice-plug-egui = "*"
realfft = "=3.5.1"
rtrb = "=0.4.1"
