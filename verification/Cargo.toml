[package]
name = "toybox"
version = "0.1.0"
edition = "2021"
publish = false

[dependencies]
petgraph = "=0.8.3"
slotmap = "=1.1.1"
rayon = "=1.12.0"
tracing = "=0.1.44"
anyhow = "=1.0.104"
log = "=0.4.35"
toml = "=1.1.8"
itertools = "=0.15.0"
rand = "=0.10.3"
bitflags = "=2.13.2"
libc = "=0.2.191"
sdl2 = "=0.38.0"
imgui = "=0.12.0"
cpal = "=0.18.2"
gl = "0.14"
