//! Arithmetic expressions compiled to WebAssembly: a tokenizer, a
//! recursive-descent parser, WAT text and binary code generation, the
//! signed LEB128 encoding and the module framing of the binary format, and
//! evaluation of the compiled modules in the wasmtime engine.

pub mod token;
pub mod ast;
pub mod syntax;
pub mod code;
pub mod semantics;
pub mod text;
pub mod leb128;
pub mod wasm;
pub mod eval;
