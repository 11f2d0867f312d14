//! Evaluation of expressions by compiling them to WebAssembly modules and
//! running these in the wasmtime engine.

use vstd::prelude::*;
use vstd::utf8::encode_utf8;
use crate::ast::{expr_code, Expr, ToWasm};
use crate::code::{code_bound, code_bytes, code_text, names_of, plain_names, Instr};
use crate::semantics::{expr_value, lemma_expr_code_value, run};
use crate::wasm::{
    add_fluff_one_param, fluff_text, module_bytes, one_param_fluff_text, one_param_module,
    one_param_module_bytes,
};

verus! {

#[verifier::external_type_specification]
#[verifier::external_body]
pub struct ExError(wasmtime::Error);

/// The modules the library builds around compiled code: the two-parameter
/// and the one-parameter module, in binary and in text form.
pub enum CalcModule {
    /// `generate_wasm`'s module for code with locals numbered by `names`.
    TwoParams(Seq<Instr>, Seq<Seq<char>>),
    /// `one_param_module`'s module for code with locals numbered by `names`.
    OneParam(Seq<Instr>, Seq<Seq<char>>),
    /// `add_fluff`'s text module for code.
    TwoParamsText(Seq<Instr>),
    /// `add_fluff_one_param`'s text module for code.
    OneParamText(Seq<Instr>),
}

/// The bytes of a module the library builds.
pub open spec fn calc_module_bytes(m: CalcModule) -> Seq<u8> {
    match m {
        CalcModule::TwoParams(code, names) => module_bytes(code_bytes(code, names)),
        CalcModule::OneParam(code, names) => one_param_module_bytes(code_bytes(code, names)),
        CalcModule::TwoParamsText(code) => encode_utf8(fluff_text(code_text(code))),
        CalcModule::OneParamText(code) => encode_utf8(one_param_fluff_text(code_text(code))),
    }
}

/// Whether `bytes` is a module the library builds. Text modules must name
/// their locals with plain characters only, so that each name stays one
/// token and adds nothing else to the module's text. Such a module has no loop and no call but
/// `calc`'s calls of the host's `log` and of the expression's function, so
/// running it ends.
pub open spec fn is_calc_module(bytes: Seq<u8>) -> bool {
    exists|m: CalcModule| #[trigger] calc_module_bytes(m) == bytes && match m {
        CalcModule::TwoParamsText(code) => plain_names(code),
        CalcModule::OneParamText(code) => plain_names(code),
        _ => true,
    }
}

/// The single binding of the one-parameter modules: `x`.
pub open spec fn x_only() -> Seq<Seq<char>> {
    seq!["x"@]
}

/// The locals of the one-parameter modules' expression function: every
/// local read is `x`, which `calc` sets to 7.
pub open spec fn x_is_seven() -> spec_fn(Seq<char>) -> i32 {
    |name: Seq<char>| 7i32
}

/// Whether running code left a stack with `v` on top.
pub open spec fn ends_with_value(stack: Option<Seq<i32>>, v: i32) -> bool {
    match stack {
        Some(s) => s.len() > 0 && s.last() == v,
        None => false,
    }
}

/// The bindings of the two-parameter modules: `x`, then `yy`.
pub open spec fn x_and_yy() -> Seq<Seq<char>> {
    seq!["x"@, "yy"@]
}

/// The locals of the two-parameter modules' expression function, which
/// `calc` calls with `x = 7` and `yy = 9`.
pub open spec fn x_seven_yy_nine() -> spec_fn(Seq<char>) -> i32 {
    |name: Seq<char>| if name == "x"@ {
        7i32
    } else {
        9i32
    }
}

/// Whether `v` is what WebAssembly defines `calc` of `module` to return,
/// where `module` is one of the library's modules: the value on top of the
/// stack that the code leaves, the parameters being 7 (`x`) and 9 (`yy`).
/// A binary module is taken where its code reads only the parameters. A text
/// module names each local it reads, and a text module that returns at all
/// reads only the parameters: a name that is no parameter fails to resolve.
pub open spec fn calc_value(module: Seq<u8>, v: i32) -> bool {
    &&& forall|code: Seq<Instr>|
        #![trigger one_param_module_bytes(code_bytes(code, x_only()))]
        module == one_param_module_bytes(code_bytes(code, x_only())) && code_bound(code, x_only())
            ==> ends_with_value(run(code, Seq::empty(), x_is_seven()), v)
    &&& forall|code: Seq<Instr>|
        #![trigger one_param_fluff_text(code_text(code))]
        module == encode_utf8(one_param_fluff_text(code_text(code))) && plain_names(code) ==> {
            &&& code_bound(code, x_only())
            &&& ends_with_value(run(code, Seq::empty(), x_is_seven()), v)
        }
    &&& forall|code: Seq<Instr>|
        #![trigger module_bytes(code_bytes(code, x_and_yy()))]
        module == module_bytes(code_bytes(code, x_and_yy())) && code_bound(code, x_and_yy())
            ==> ends_with_value(run(code, Seq::empty(), x_seven_yy_nine()), v)
    &&& forall|code: Seq<Instr>|
        #![trigger fluff_text(code_text(code))]
        module == encode_utf8(fluff_text(code_text(code))) && plain_names(code) ==> {
            &&& code_bound(code, x_and_yy())
            &&& ends_with_value(run(code, Seq::empty(), x_seven_yy_nine()), v)
        }
}

/// What the function `export` of type `() -> i32` of the module `module`
/// returns when it returns.
pub uninterp spec fn calc_result(module: Seq<u8>, export: Seq<char>) -> i32;

/// Compiles `module` (binary or text) with `wasmtime::Engine::default` and
/// `wasmtime::Module::new`, instantiates it with `wasmtime::Instance::new`
/// in a fresh `wasmtime::Store` whose only import is the host's `log`, a
/// `wasmtime::Func::wrap` of a closure that does nothing, looks the export
/// up with `wasmtime::Instance::get_typed_func` and runs it with
/// `wasmtime::TypedFunc::call`. These steps share one engine and one store,
/// so they stand together: nothing made in another store can reach them.
///
/// Claimed: a value returned depends on the module and the export alone
/// (`calc_result`). And, as the WebAssembly specification that wasmtime
/// implements defines these instructions in their binary and text forms,
/// `calc` of the library's module around code that reads only the module's
/// parameters returns the top of the stack that the code leaves (`run`),
/// with `x = 7` and `yy = 9` (`calc_value`); a text module whose code reads a
/// name that is no parameter does not compile (the WAT parser's name
/// resolution reports an unknown local). Not stated: whether it succeeds,
/// which depends on the engine and the machine, and which step fails.
/// Modules other than the library's are left out: one may never return.
#[verifier::external_body]
fn run_module(module: &[u8], export: &str) -> (r: Result<i32, wasmtime::Error>)
    requires
        is_calc_module(module@),
    ensures
        r matches Ok(v) ==> v == calc_result(module@, export@),
        r matches Ok(v) ==> (export@ == "calc"@ ==> calc_value(module@, v)),
{
    let engine = wasmtime::Engine::default();
    let module = wasmtime::Module::new(&engine, module)?;
    let mut store = wasmtime::Store::new(&engine, ());
    let host_log = wasmtime::Func::wrap(&mut store, |_param: i32| {});
    let instance = wasmtime::Instance::new(&mut store, &module, &[host_log.into()])?;
    let function = instance.get_typed_func::<(), i32>(&mut store, export)?;
    function.call(&mut store, ())
}

/// Why running a module failed: it did not compile, could not be
/// instantiated, has no export `calc` of type `() -> i32`, or trapped.
#[derive(Debug)]
pub enum EvalError {
    Engine(wasmtime::Error),
}

/// Runs the export `calc` of a module the library built. A value returned
/// is `calc_result` of the module, and the top of the stack its code leaves
/// with `x = 7` and `yy = 9` where the code reads only those (`calc_value`).
pub fn run_calc(module: &[u8]) -> (r: Result<i32, EvalError>)
    requires
        is_calc_module(module@),
    ensures
        r matches Ok(v) ==> v == calc_result(module@, "calc"@),
        r matches Ok(v) ==> calc_value(module@, v),
{
    match run_module(module, "calc") {
        Ok(v) => Ok(v),
        Err(e) => Err(EvalError::Engine(e)),
    }
}

/// Evaluates an expression whose variables are named by plain characters,
/// with `x = 7`, by running its WAT text in the one-parameter text module.
/// A value returned is what the engine's `calc` of that text returns and the
/// expression's value; it comes only where `x` is the only variable, and a
/// division by zero gives no value.
pub fn eval_wat(expr: &Expr) -> (r: Result<i32, EvalError>)
    requires
        plain_names(expr_code(expr@)),
    ensures
        r matches Ok(v) ==> v == calc_result(
            encode_utf8(one_param_fluff_text(code_text(expr_code(expr@)))),
            "calc"@,
        ),
        r matches Ok(v) ==> code_bound(expr_code(expr@), x_only()),
        r matches Ok(v) ==> expr_value(expr@, x_is_seven()) == Some(v),
{
    let wat = add_fluff_one_param(expr.to_wat().as_str());
    let text = wat.as_str();
    let ghost c = expr_code(expr@);
    assert(calc_module_bytes(CalcModule::OneParamText(c)) == encode_utf8(text@));
    let r = run_calc(text.as_bytes());
    proof {
        if let Ok(v) = r {
            assert(encode_utf8(text@) == encode_utf8(one_param_fluff_text(code_text(c))));
            lemma_expr_code_value(expr@, Seq::empty(), x_is_seven());
        }
    }
    r
}

/// Evaluates an expression whose only variable is `x`, with `x = 7`, by
/// running its binary code in the one-parameter binary module. A value
/// returned is the expression's value; a division by zero gives no value.
pub fn eval_wasm(expr: &Expr) -> (r: Result<i32, EvalError>)
    requires
        code_bound(expr_code(expr@), x_only()),
        code_bytes(expr_code(expr@), x_only()).len() + 64 <= usize::MAX,
    ensures
        r matches Ok(v) ==> v == calc_result(
            one_param_module_bytes(code_bytes(expr_code(expr@), x_only())),
            "calc"@,
        ),
        r matches Ok(v) ==> expr_value(expr@, x_is_seven()) == Some(v),
{
    let bindings = vec![String::from_str("x")];
    proof {
        reveal_strlit("x");
        assert(names_of(bindings@) == x_only());
    }
    let code = expr.to_wasm(bindings.as_slice());
    let wasm = one_param_module(code.as_slice());
    let ghost c = expr_code(expr@);
    assert(calc_module_bytes(CalcModule::OneParam(c, x_only())) == wasm@);
    let r = run_calc(wasm.as_slice());
    proof {
        if let Ok(v) = r {
            assert(wasm@ == one_param_module_bytes(code_bytes(c, x_only())));
            lemma_expr_code_value(expr@, Seq::empty(), x_is_seven());
        }
    }
    r
}

} // verus!
