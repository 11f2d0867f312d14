//! Framing of WebAssembly binary modules: functions, function types and
//! sections.

use vstd::prelude::*;
use vstd::string::*;
use crate::ast::{Bindings, ToWasm};
use crate::code::{code_bound, code_bytes, names_of};
use crate::leb128::{lemma_sleb128_usize_len, sleb128, write_leb128};

verus! {

/// Section id of the type section (function signatures).
pub const SIGNATURE_TYPE: u8 = 0x01;

/// Section id of the code section (function bodies, locals and opcodes).
pub const SIGNATURE_CODE: u8 = 0x0a;

/// The concatenation of a sequence of byte strings.
pub open spec fn concat(parts: Seq<Seq<u8>>) -> Seq<u8>
    decreases parts.len(),
{
    if parts.len() == 0 {
        Seq::empty()
    } else {
        concat(parts.drop_last()) + parts.last()
    }
}

/// The byte strings behind a slice of byte slices.
pub open spec fn byte_slices(parts: Seq<&[u8]>) -> Seq<Seq<u8>> {
    parts.map_values(|p: &[u8]| p@)
}

/// A function body entry of the code section: the body's length, then the body.
pub open spec fn func_entry(body: Seq<u8>) -> Seq<u8> {
    sleb128(body.len() as int) + body
}

/// A function type: the `func` type constructor, the parameter types and the
/// result types, each list preceded by its length.
pub open spec fn func_type(args: Seq<u8>, result: Seq<u8>) -> Seq<u8> {
    seq![0x60u8] + sleb128(args.len() as int) + args + sleb128(result.len() as int) + result
}

/// A section: its id, its payload size (counted as one byte for the entry
/// count plus the entries), the entry count and the entries.
pub open spec fn section(id: u8, payloads: Seq<Seq<u8>>) -> Seq<u8> {
    seq![id] + sleb128(1 + concat(payloads).len() as int) + sleb128(payloads.len() as int) + concat(payloads)
}

/// Appends `bytes` to `out`.
fn append_bytes(out: &mut Vec<u8>, bytes: &[u8])
    ensures
        final(out)@ == old(out)@ + bytes@,
{
    let mut k: usize = 0;
    while k < bytes.len()
        invariant
            k <= bytes.len(),
            out@ == old(out)@ + bytes@.take(k as int),
        decreases bytes.len() - k,
    {
        out.push(bytes[k]);
        k = k + 1;
        assert(bytes@.take(k as int) == bytes@.take(k - 1 as int).push(bytes@[k - 1]));
    }
    assert(bytes@.take(k as int) == bytes@);
}

/// A code-section entry for a function body: its length in LEB128, then the body.
pub fn make_func(body: &[u8]) -> (out: Vec<u8>)
    ensures
        out@ == func_entry(body@),
{
    let mut out = Vec::new();
    write_leb128(body.len() as i128, &mut out);
    append_bytes(&mut out, body);
    out
}

/// A section with the given id holding the given entries.
pub fn make_section<const SIGNATURE: u8>(payloads: &[&[u8]]) -> (out: Vec<u8>)
    requires
        payloads@.len() < 63,
        1 + concat(byte_slices(payloads@)).len() <= usize::MAX,
    ensures
        out@ == section(SIGNATURE, byte_slices(payloads@)),
{
    let count = payloads.len();
    let mut total: usize = 0;
    let mut k: usize = 0;
    while k < count
        invariant
            count == payloads@.len(),
            k <= count,
            1 + concat(byte_slices(payloads@)).len() <= usize::MAX,
            total == concat(byte_slices(payloads@).take(k as int)).len(),
        decreases count - k,
    {
        proof {
            lemma_concat_prefix_len(byte_slices(payloads@), k as int);
        }
        total = total + payloads[k].len();
        k = k + 1;
    }
    assert(byte_slices(payloads@).take(count as int) == byte_slices(payloads@));
    let payload_size = 1 + total;
    let mut out = Vec::new();
    out.push(SIGNATURE);
    write_leb128(payload_size as i128, &mut out);
    write_leb128(count as i128, &mut out);
    let ghost header = out@;
    let mut k: usize = 0;
    while k < count
        invariant
            count == payloads@.len(),
            k <= count,
            out@ == header + concat(byte_slices(payloads@).take(k as int)),
        decreases count - k,
    {
        let function: &[u8] = payloads[k];
        append_bytes(&mut out, function);
        k = k + 1;
        assert(byte_slices(payloads@).take(k as int).drop_last() == byte_slices(payloads@).take(k - 1 as int));
    }
    out
}

/// `concat` of a prefix one longer adds the next part's length.
proof fn lemma_concat_prefix_len(parts: Seq<Seq<u8>>, k: int)
    requires
        0 <= k < parts.len(),
    ensures
        concat(parts.take(k + 1)).len() == concat(parts.take(k)).len() + parts[k].len(),
        concat(parts.take(k + 1)).len() <= concat(parts).len(),
    decreases parts.len() - k,
{
    assert(parts.take(k + 1).drop_last() == parts.take(k));
    if k + 1 < parts.len() {
        lemma_concat_prefix_len(parts, k + 1);
    } else {
        assert(parts.take(k + 1) == parts);
    }
}

/// A function type with the given parameter and result value types.
pub fn make_func_type(args: &[u8], result: &[u8]) -> (payload: Vec<u8>)
    ensures
        payload@ == func_type(args@, result@),
{
    let mut payload = Vec::new();
    payload.push(0x60);
    write_leb128(args.len() as i128, &mut payload);
    append_bytes(&mut payload, args);
    write_leb128(result.len() as i128, &mut payload);
    append_bytes(&mut payload, result);
    payload
}

/// The text module that `add_fluff` wraps an expression's code in, up to the
/// expression's function: it imports the host's `log`, and exports `calc`,
/// which logs 123 and returns the expression's value for `$x = 7`, `$yy = 9`.
pub const MODULE_PREAMBLE: &'static str = r#"
        (module
            (import "host" "log" (func $host_log (param i32)))
            (func (export "calc") (result i32)
                i32.const 123 ;; <-- Closure `param`
                call $host_log

                i32.const 7 ;; <-- WASM function param `$x`
                i32.const 9 ;; <-- WASM function param `$yy`
                call $eval_expr
                return)
    "#;

/// The header of the expression's function in `add_fluff`.
pub const EVAL_EXPR_HEADER: &'static str = "(func $eval_expr (param $x i32) (param $yy i32) (result i32)";

/// The text module `add_fluff` makes of an expression's WAT code.
pub open spec fn fluff_text(expr_wat: Seq<char>) -> Seq<char> {
    MODULE_PREAMBLE@ + EVAL_EXPR_HEADER@ + expr_wat + " return)"@ + ")"@
}

/// Wraps the WAT code of an expression in a text module whose exported
/// `calc` evaluates it with `$x = 7` and `$yy = 9`.
pub fn add_fluff(expr_wat: &str) -> (wat: String)
    ensures
        wat@ == fluff_text(expr_wat@),
{
    let mut wat = String::from_str(MODULE_PREAMBLE);
    wat.append(EVAL_EXPR_HEADER);
    wat.append(expr_wat);
    wat.append(" return)");
    wat.append(")");
    wat
}

/// The magic number and version of a binary module.
pub open spec fn module_header() -> Seq<u8> {
    seq![0x00u8, 0x61, 0x73, 0x6d, 0x01, 0x00, 0x00, 0x00]
}

/// The type section of `generate_wasm`: `i32 -> ()` (the host's log),
/// `() -> i32` (`calc`) and `i32, i32 -> i32` (the expression).
pub open spec fn type_section() -> Seq<u8> {
    section(
        SIGNATURE_TYPE,
        seq![
            func_type(seq![0x7fu8], Seq::empty()),
            func_type(Seq::empty(), seq![0x7fu8]),
            func_type(seq![0x7fu8, 0x7f], seq![0x7fu8]),
        ],
    )
}

/// The import, function and export sections of `generate_wasm`: the
/// host's `log` is imported, `calc` and the expression are declared, and
/// `calc` is exported.
pub open spec fn link_sections() -> Seq<u8> {
    seq![
        0x02u8, 0x0c, 0x01, 0x04, 0x68, 0x6f, 0x73, 0x74, 0x03, 0x6c, 0x6f, 0x67, 0x00, 0x00,
        0x03, 0x03, 0x02, 0x01, 0x02,
        0x07, 0x08, 0x01, 0x04, 0x63, 0x61, 0x6c, 0x63, 0x00, 0x01,
    ]
}

/// The body of `calc`: log 123, then return the expression's value for the
/// arguments 7 and 9.
pub open spec fn calc_body() -> Seq<u8> {
    seq![0x00u8, 0x41, 0xfb, 0x00, 0x10, 0x00, 0x41, 0x07, 0x41, 0x09, 0x10, 0x02, 0x0f, 0x0b]
}

/// The body of the expression's function: no locals, the expression's code,
/// `return`, `end`.
pub open spec fn eval_body(code: Seq<u8>) -> Seq<u8> {
    seq![0x00u8] + code + seq![0x0fu8, 0x0b]
}

/// The binary module of `generate_wasm` for an expression compiled to `code`.
pub open spec fn module_bytes(code: Seq<u8>) -> Seq<u8> {
    module_header() + type_section() + link_sections() + section(
        SIGNATURE_CODE,
        seq![func_entry(calc_body()), func_entry(eval_body(code))],
    )
}

proof fn lemma_concat2(a: Seq<u8>, b: Seq<u8>)
    ensures
        concat(seq![a, b]) == a + b,
{
    assert(seq![a, b].drop_last() == seq![a]);
    assert(seq![a].drop_last() == Seq::<Seq<u8>>::empty());
    assert(concat(seq![a]) == concat(Seq::<Seq<u8>>::empty()) + a);
    assert(Seq::<u8>::empty() + a == a);
}

proof fn lemma_concat3(a: Seq<u8>, b: Seq<u8>, c: Seq<u8>)
    ensures
        concat(seq![a, b, c]) == a + b + c,
{
    assert(seq![a, b, c].drop_last() == seq![a, b]);
    lemma_concat2(a, b);
}

/// A binary module whose exported `calc` logs 123 through the host's `log`
/// and returns the expression's value for the locals 7 and 9, bound by
/// position to `bindings`.
pub fn generate_wasm(expr: &impl ToWasm, bindings: &Bindings) -> (wasm: Vec<u8>)
    requires
        code_bound(expr.code(), names_of(bindings@)),
        code_bytes(expr.code(), names_of(bindings@)).len() + 64 <= usize::MAX,
    ensures
        wasm@ == module_bytes(code_bytes(expr.code(), names_of(bindings@))),
{
    let mut wasm = vec![
        0x00, 0x61, 0x73, 0x6d, // asm
        0x01, 0x00, 0x00, 0x00, // version
    ];
    assert(wasm@ == module_header());
    let f1 = make_func_type(&[0x7f], &[]);
    let f2 = make_func_type(&[], &[0x7f]);
    let f3 = make_func_type(&[0x7f, 0x7f], &[0x7f]);
    proof {
        lemma_sleb128_usize_len(0);
        lemma_sleb128_usize_len(1);
        lemma_sleb128_usize_len(2);
        assert(sleb128(0) == seq![0u8]);
        assert(sleb128(1) == seq![1u8]);
        assert(sleb128(2) == seq![2u8]);
    }
    let types: [&[u8]; 3] = [f1.as_slice(), f2.as_slice(), f3.as_slice()];
    proof {
        assert(byte_slices(types@) == seq![f1@, f2@, f3@]);
        lemma_concat3(f1@, f2@, f3@);
    }
    assert(f1@ == func_type(seq![0x7fu8], Seq::empty()));
    assert(f2@ == func_type(Seq::empty(), seq![0x7fu8]));
    assert(f3@ == func_type(seq![0x7fu8, 0x7f], seq![0x7fu8]));
    let types_section = make_section::<SIGNATURE_TYPE>(&types);
    assert(types_section@ == type_section());
    append_bytes(&mut wasm, types_section.as_slice());
    let link = vec![
        0x02, // import section signature
        0x0c, // 12B payload
        0x01, // one import
        0x04, // Module name: 4 chars
            0x68, 0x6f, 0x73, 0x74, // = "host"
        0x03, // Field name: 3 chars
            0x6c, 0x6f, 0x67, // == log
        0x00, // Import kind: function
        0x00, // Type kind index: 0: i32 -> ()

        0x03, // function section signarure
        0x03, // 3B payload
        0x02, // 2 functions:
            0x01, // Type kind index: 1: () -> i32
            0x02, // TYpe kind index: 2: i32, i32 -> i32

        0x07, // export section signature
        0x08, // 8 byte payload
        0x01, // one export
        0x04, // Field name: 4 chars
            0x63, 0x61, 0x6c, 0x63, // = "calc"
        0x00, // Export kind: function
        0x01, // Function index: 1, () -> i32
    ];
    assert(link@ == link_sections());
    append_bytes(&mut wasm, link.as_slice());

    let calc_code = vec![
            0x00, // localdeclcount(0)
            0x41, 0xfb, 0x00, // i32.const 123
            0x10, 0x00, // call function index=0 (host_log)
            0x41, 0x07, // i32.const 7
            0x41, 0x09, // i32.const 9
            0x10, 0x02, // call function index=2 (eval_expr)
            0x0f, // return
            0x0b, // end
    ];
    assert(calc_code@ == calc_body());
    let calc = make_func(calc_code.as_slice());

    let mut body = Vec::new();
    body.push(0x00); // no local decl count
    let mut code = expr.to_wasm(bindings);
    body.append(&mut code);
    body.push(0x0f); // return
    body.push(0x0b); // end
    assert(body@ == eval_body(code_bytes(expr.code(), names_of(bindings@))));
    let eval_expr = make_func(body.as_slice());

    proof {
        lemma_sleb128_usize_len(calc_body().len() as int);
        lemma_sleb128_usize_len(body@.len() as int);
    }
    let functions: [&[u8]; 2] = [calc.as_slice(), eval_expr.as_slice()];
    proof {
        assert(byte_slices(functions@) == seq![calc@, eval_expr@]);
        lemma_concat2(calc@, eval_expr@);
    }
    let code_section = make_section::<SIGNATURE_CODE>(&functions);
    assert(code_section@ == section(
        SIGNATURE_CODE,
        seq![func_entry(calc_body()), func_entry(eval_body(code_bytes(expr.code(), names_of(bindings@))))],
    ));
    append_bytes(&mut wasm, code_section.as_slice());
    wasm
}

/// A section's contents after its id: the payload size (counted as one byte
/// for the entry count plus the entries), the entry count and the entries.
pub open spec fn section_contents(payloads: Seq<Seq<u8>>) -> Seq<u8> {
    sleb128(1 + concat(payloads).len() as int) + sleb128(payloads.len() as int) + concat(payloads)
}

/// The contents of a code section (without its id) holding the given
/// function entries.
pub fn make_code_section(functions: &[&[u8]]) -> (out: Vec<u8>)
    requires
        1 + concat(byte_slices(functions@)).len() <= usize::MAX,
    ensures
        out@ == section_contents(byte_slices(functions@)),
{
    let function_count = functions.len();
    let mut code_section_size: usize = 1;
    let mut k: usize = 0;
    while k < function_count
        invariant
            function_count == functions@.len(),
            k <= function_count,
            1 + concat(byte_slices(functions@)).len() <= usize::MAX,
            code_section_size == 1 + concat(byte_slices(functions@).take(k as int)).len(),
        decreases function_count - k,
    {
        proof {
            lemma_concat_prefix_len(byte_slices(functions@), k as int);
        }
        code_section_size = code_section_size + functions[k].len();
        k = k + 1;
    }
    assert(byte_slices(functions@).take(function_count as int) == byte_slices(functions@));
    let mut out = Vec::new();
    write_leb128(code_section_size as i128, &mut out);
    write_leb128(function_count as i128, &mut out);
    let ghost header = out@;
    let mut k: usize = 0;
    while k < function_count
        invariant
            function_count == functions@.len(),
            k <= function_count,
            out@ == header + concat(byte_slices(functions@).take(k as int)),
        decreases function_count - k,
    {
        let function: &[u8] = functions[k];
        append_bytes(&mut out, function);
        k = k + 1;
        assert(byte_slices(functions@).take(k as int).drop_last() == byte_slices(functions@).take(k - 1 as int));
    }
    out
}

/// The sections of the one-parameter module of `calc_module` before the
/// contents of its code section: the types `i32 -> ()`, `() -> i32` and
/// `i32 -> i32`, the host's `log` imported, `calc` and the expression
/// declared, `calc` exported, and the code section's id.
pub open spec fn one_param_prefix() -> Seq<u8> {
    seq![
        0x00u8, 0x61, 0x73, 0x6d, 0x01, 0x00, 0x00, 0x00, 0x01, 0x0e, 0x03, 0x60,
        0x01, 0x7f, 0x00, 0x60, 0x00, 0x01, 0x7f, 0x60, 0x01, 0x7f, 0x01, 0x7f,
        0x02, 0x0c, 0x01, 0x04, 0x68, 0x6f, 0x73, 0x74, 0x03, 0x6c, 0x6f, 0x67,
        0x00, 0x00, 0x03, 0x03, 0x02, 0x01, 0x02, 0x07, 0x08, 0x01, 0x04, 0x63,
        0x61, 0x6c, 0x63, 0x00, 0x01, 0x0a,
    ]
}

/// The body of `calc` in the one-parameter module: log 123, then return the
/// expression's value for the argument 7.
pub open spec fn one_param_calc_body() -> Seq<u8> {
    seq![0x00u8, 0x41, 0xfb, 0x00, 0x10, 0x00, 0x41, 0x07, 0x10, 0x02, 0x0f, 0x0b]
}

/// The one-parameter binary module for an expression compiled to `code`.
pub open spec fn one_param_module_bytes(code: Seq<u8>) -> Seq<u8> {
    one_param_prefix() + section_contents(
        seq![func_entry(one_param_calc_body()), func_entry(eval_body(code))],
    )
}

/// A binary module whose exported `calc` logs 123 through the host's `log`
/// and returns the value of the expression compiled to `code` for the single
/// local `$x = 7`.
pub fn one_param_module(code: &[u8]) -> (wasm: Vec<u8>)
    requires
        code@.len() + 64 <= usize::MAX,
    ensures
        wasm@ == one_param_module_bytes(code@),
{
    let mut wasm = vec![
        0x00, 0x61, 0x73, 0x6d, 0x01, 0x00, 0x00, 0x00, 0x01, 0x0e, 0x03, 0x60,
        0x01, 0x7f, 0x00, 0x60, 0x00, 0x01, 0x7f, 0x60, 0x01, 0x7f, 0x01, 0x7f,
        0x02, 0x0c, 0x01, 0x04, 0x68, 0x6f, 0x73, 0x74, 0x03, 0x6c, 0x6f, 0x67,
        0x00, 0x00, 0x03, 0x03, 0x02, 0x01, 0x02, 0x07, 0x08, 0x01, 0x04, 0x63,
        0x61, 0x6c, 0x63, 0x00, 0x01, 0x0a ];
    assert(wasm@ == one_param_prefix());

    let calc_code = vec![
            0x00, // localdeclcount(0)
            0x41, 0xfb, 0x00, // i32.const 123
            0x10, 0x00, // call function index=0 (host_log)
            0x41, 0x07, // i32.const 7
            0x10, 0x02, // call function index=2 (eval_expr)
            0x0f, // return
            0x0b, // end
    ];
    assert(calc_code@ == one_param_calc_body());
    let calc = make_func(calc_code.as_slice());

    let mut body = Vec::new();
    body.push(0x00); // no local decl count
    append_bytes(&mut body, code);
    body.push(0x0f); // return
    body.push(0x0b); // end
    assert(body@ == eval_body(code@));
    let eval_expr = make_func(body.as_slice());

    proof {
        lemma_sleb128_usize_len(one_param_calc_body().len() as int);
        lemma_sleb128_usize_len(body@.len() as int);
    }
    let functions: [&[u8]; 2] = [calc.as_slice(), eval_expr.as_slice()];
    proof {
        assert(byte_slices(functions@) == seq![calc@, eval_expr@]);
        lemma_concat2(calc@, eval_expr@);
    }
    let code_section = make_code_section(&functions);
    append_bytes(&mut wasm, code_section.as_slice());
    wasm
}

/// The header of the expression's function in `add_fluff_one_param`.
pub const ONE_PARAM_HEADER: &'static str = "(func $eval_expr (param $x i32) (result i32)";

/// The text module that `add_fluff_one_param` wraps an expression's code in,
/// up to the expression's function: it imports the host's `log`, and
/// exports `calc`, which logs 123 and returns the expression's value for
/// `$x = 7`.
pub const ONE_PARAM_PREAMBLE: &'static str = r#"
        (module
            (import "host" "log" (func $host_log (param i32)))
            (func (export "calc") (result i32)
                i32.const 123 ;; <-- Closure `param`
                call $host_log

                i32.const 7 ;; <-- WASM function param `$x`
                call $eval_expr
                return)
    "#;

/// The text module `add_fluff_one_param` makes of an expression's WAT code.
pub open spec fn one_param_fluff_text(expr_wat: Seq<char>) -> Seq<char> {
    ONE_PARAM_PREAMBLE@ + ONE_PARAM_HEADER@ + expr_wat + " return)"@ + ")"@
}

/// Wraps the WAT code of an expression in a text module whose exported
/// `calc` evaluates it with `$x = 7`.
pub fn add_fluff_one_param(expr_wat: &str) -> (wat: String)
    ensures
        wat@ == one_param_fluff_text(expr_wat@),
{
    let mut wat = String::from_str(ONE_PARAM_PREAMBLE);
    wat.append(ONE_PARAM_HEADER);
    wat.append(expr_wat);
    wat.append(" return)");
    wat.append(")");
    wat
}

/// The payload size a section records is the number of bytes that follow
/// it, where the section holds fewer than 64 entries (so that the entry
/// count takes the one byte it is counted as).
pub proof fn lemma_section_size_exact(id: u8, payloads: Seq<Seq<u8>>)
    requires
        payloads.len() < 64,
    ensures
        ({
            let rest = sleb128(payloads.len() as int) + concat(payloads);
            section(id, payloads) == seq![id] + sleb128(rest.len() as int) + rest
        }),
{
    assert(sleb128(payloads.len() as int).len() == 1);
}

} // verus!
