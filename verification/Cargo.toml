[package]
name = "cellular_automata"
version = "0.1.0"
edition = "2021"
publish = false

[dependencies]
linked-hash-map = "0.5"
rand = "0.8"
rayon = "1"
macroquad = "*"
native-dialog = "*"
