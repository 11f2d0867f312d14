# wasm_calc

Arithmetic expressions over `i32` (`+ - * /`, parentheses, numbers and
lowercase variables, optionally written `$x`) compiled to WebAssembly, with
the compiler verified in Verus.

- `token`: the tokenizer and a token stream with one token of look-ahead.
- `ast`: the syntax tree, the recursive-descent parser, and compilation to
  WAT text (`to_wat`) and binary code (`ToWasm`).
- `syntax`: how expressions are written as tokens; parsing inverts it.
- `code`: the instruction sequence an expression compiles to, its text and
  its binary encoding.
- `semantics`: what the instructions compute; an expression's code leaves
  the expression's value on the stack.
- `leb128`, `wasm`: signed LEB128 and the framing of binary modules.
- `eval`: running the compiled modules in wasmtime.
- `app/main.rs`: the command-line driver, `cargo run -- '1+$x*3'`.
