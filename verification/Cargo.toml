[package]
name = "z_polyhedrator"
version = "0.1.0"
edition = "2021"
publish = false

[dependencies]
bitflags = "1"
byteorder = "1"
colored = "2"
cute = "*"
itertools = "*"
linked-hash-map = "*"
linked_hash_set = "*"
num-traits = "0.2"
project-root = "*"
sprs = { version = "0.11", default-features = false }
stringreader = "*"
text_io = "*"
xflags = "*"
