[package]
name = "brainfuck_interpreter"
version = "1.0.0"
edition = "2021"
publish = false

[dependencies]
clap = "2"
colored = "1"
memmap = "0.7"
