[package]
name = "esalp"
version = "0.1.0"
edition = "2021"
publish = false

[dependencies]
bit_field = "0.10"
x86_64 = { version = "0.15", default-features = false, features = ["instructions"] }
multiboot2 = "*"
spin = "0.9"
linked_list_allocator = "*"
