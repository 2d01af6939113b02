[package]
name = "petrea"
version = "0.1.0"
edition = "2021"
publish = false

[dependencies]
oxc_syntax = "=0.143.0"
oxc_parser = "=0.143.0"
oxc_allocator = "=0.143.0"
oxc_ast = "=0.143.0"
oxc_span = "=0.143.0"
oxc_ast_visit = "=0.143.0"
napi = "=3.16.1"
napi-derive = "=3.7.0"
