//! The stack-machine instructions an expression compiles to, with their
//! text (WAT) and binary (WASM) forms.

use vstd::prelude::*;
use crate::leb128::{lemma_sleb128_reads_back, read_sleb128, sleb128};

verus! {

/// One WebAssembly instruction of the `i32` subset used by expressions.
pub enum Instr {
    /// `i32.const`: pushes a constant.
    Const(i32),
    /// `local.get`: pushes the value of the named local.
    LocalGet(Seq<char>),
    /// `i32.add`
    Add,
    /// `i32.sub`
    Sub,
    /// `i32.mul`
    Mul,
    /// `i32.div_u`
    DivU,
}

/// The character of a decimal digit.
pub open spec fn digit_char(d: int) -> char {
    (d + '0' as int) as char
}

/// The decimal digits of a natural number, most significant first.
pub open spec fn digits_text(n: nat) -> Seq<char>
    decreases n,
{
    if n < 10 {
        seq![digit_char(n as int)]
    } else {
        digits_text(n / 10).push(digit_char((n % 10) as int))
    }
}

/// The decimal notation of an integer, with a leading `-` when negative.
pub open spec fn decimal_text(i: int) -> Seq<char> {
    if i < 0 {
        seq!['-'] + digits_text((-i) as nat)
    } else {
        digits_text(i as nat)
    }
}

/// The WAT text of one instruction.
pub open spec fn instr_text(i: Instr) -> Seq<char> {
    match i {
        Instr::Const(c) => "i32.const "@ + decimal_text(c as int),
        Instr::LocalGet(name) => "local.get $"@ + name,
        Instr::Add => "i32.add"@,
        Instr::Sub => "i32.sub"@,
        Instr::Mul => "i32.mul"@,
        Instr::DivU => "i32.div_u"@,
    }
}

/// The WAT text of an instruction sequence: one instruction per line.
pub open spec fn code_text(code: Seq<Instr>) -> Seq<char>
    decreases code.len(),
{
    if code.len() == 0 {
        Seq::empty()
    } else if code.len() == 1 {
        instr_text(code[0])
    } else {
        code_text(code.drop_last()) + "\n"@ + instr_text(code.last())
    }
}

/// The names of a list of bindings.
pub open spec fn names_of(bindings: Seq<String>) -> Seq<Seq<char>> {
    bindings.map_values(|b: String| b@)
}

/// Whether every local that `code` reads is among `names`.
pub open spec fn code_bound(code: Seq<Instr>, names: Seq<Seq<char>>) -> bool {
    forall|k: int| 0 <= k < code.len() ==> (#[trigger] code[k] matches Instr::LocalGet(n) ==> names.contains(n))
}

/// Whether a character can stand inside a WAT identifier without ending it:
/// it is no white space, parenthesis, quote or semicolon, the characters
/// that separate WAT tokens or start strings and comments.
pub open spec fn is_plain_char(c: char) -> bool {
    !(c == ' ' || c == '\t' || c == '\n' || c == '\r' || c == '(' || c == ')' || c == '"' || c == ';')
}

/// Whether the name of every local that `code` reads is made of plain
/// characters only, so that its WAT text is one token.
pub open spec fn plain_names(code: Seq<Instr>) -> bool {
    forall|k: int| 0 <= k < code.len() ==> (#[trigger] code[k] matches Instr::LocalGet(n) ==> (
    forall|j: int| 0 <= j < n.len() ==> is_plain_char(#[trigger] n[j])))
}

/// The local index of a name: the position of its first occurrence.
pub open spec fn local_index(names: Seq<Seq<char>>, name: Seq<char>) -> int {
    names.index_of_first(name)->Some_0
}

/// The binary encoding of one instruction, locals numbered by `names`.
pub open spec fn instr_bytes(i: Instr, names: Seq<Seq<char>>) -> Seq<u8> {
    match i {
        Instr::Const(c) => seq![0x41u8] + sleb128(c as int),
        Instr::LocalGet(name) => seq![0x20u8] + sleb128(local_index(names, name)),
        Instr::Add => seq![0x6au8],
        Instr::Sub => seq![0x6bu8],
        Instr::Mul => seq![0x6cu8],
        Instr::DivU => seq![0x6eu8],
    }
}

/// The binary encoding of an instruction sequence.
pub open spec fn code_bytes(code: Seq<Instr>, names: Seq<Seq<char>>) -> Seq<u8>
    decreases code.len(),
{
    if code.len() == 0 {
        Seq::empty()
    } else {
        code_bytes(code.drop_last(), names) + instr_bytes(code.last(), names)
    }
}

/// The text of two non-empty instruction sequences in a row is their texts
/// joined by a line break.
pub proof fn lemma_code_text_append(a: Seq<Instr>, b: Seq<Instr>)
    requires
        a.len() > 0,
        b.len() > 0,
    ensures
        code_text(a + b) == code_text(a) + "\n"@ + code_text(b),
    decreases b.len(),
{
    if b.len() == 1 {
        assert((a + b).drop_last() == a);
    } else {
        lemma_code_text_append(a, b.drop_last());
        assert((a + b).drop_last() == a + b.drop_last());
    }
}

/// The encoding of two instruction sequences in a row is the concatenation
/// of their encodings.
pub proof fn lemma_code_bytes_append(a: Seq<Instr>, b: Seq<Instr>, names: Seq<Seq<char>>)
    ensures
        code_bytes(a + b, names) == code_bytes(a, names) + code_bytes(b, names),
    decreases b.len(),
{
    if b.len() == 0 {
        assert(a + b == a);
    } else {
        lemma_code_bytes_append(a, b.drop_last(), names);
        assert((a + b).drop_last() == a + b.drop_last());
    }
}

/// An instruction as the binary format writes it: locals by index.
pub enum IndexedInstr {
    Const(int),
    LocalGet(int),
    Add,
    Sub,
    Mul,
    DivU,
}

/// An instruction with its local named by index into `names`.
pub open spec fn indexed(i: Instr, names: Seq<Seq<char>>) -> IndexedInstr {
    match i {
        Instr::Const(c) => IndexedInstr::Const(c as int),
        Instr::LocalGet(name) => IndexedInstr::LocalGet(local_index(names, name)),
        Instr::Add => IndexedInstr::Add,
        Instr::Sub => IndexedInstr::Sub,
        Instr::Mul => IndexedInstr::Mul,
        Instr::DivU => IndexedInstr::DivU,
    }
}

/// Reading one instruction from the front of `s`: the opcode, and for
/// `i32.const` and `local.get` the signed LEB128 immediate that follows it.
pub open spec fn read_instr(s: Seq<u8>) -> Option<(IndexedInstr, Seq<u8>)> {
    if s.len() == 0 {
        None
    } else if s[0] == 0x41 {
        match read_sleb128(s.drop_first()) {
            Some((v, rest)) => Some((IndexedInstr::Const(v), rest)),
            None => None,
        }
    } else if s[0] == 0x20 {
        match read_sleb128(s.drop_first()) {
            Some((v, rest)) => Some((IndexedInstr::LocalGet(v), rest)),
            None => None,
        }
    } else if s[0] == 0x6a {
        Some((IndexedInstr::Add, s.drop_first()))
    } else if s[0] == 0x6b {
        Some((IndexedInstr::Sub, s.drop_first()))
    } else if s[0] == 0x6c {
        Some((IndexedInstr::Mul, s.drop_first()))
    } else if s[0] == 0x6e {
        Some((IndexedInstr::DivU, s.drop_first()))
    } else {
        None
    }
}

/// Reading a whole byte sequence as instructions.
pub open spec fn read_code(s: Seq<u8>) -> Option<Seq<IndexedInstr>>
    decreases s.len(),
{
    if s.len() == 0 {
        Some(Seq::empty())
    } else {
        match read_instr(s) {
            Some((i, rest)) => if rest.len() < s.len() {
                match read_code(rest) {
                    Some(c) => Some(seq![i] + c),
                    None => None,
                }
            } else {
                None
            },
            None => None,
        }
    }
}

proof fn lemma_read_instr_bytes(i: Instr, names: Seq<Seq<char>>, rest: Seq<u8>)
    ensures
        read_instr(instr_bytes(i, names) + rest) == Some((indexed(i, names), rest)),
        instr_bytes(i, names).len() > 0,
{
    let s = instr_bytes(i, names) + rest;
    match i {
        Instr::Const(c) => {
            lemma_sleb128_reads_back(c as int, rest);
            assert(s.drop_first() == sleb128(c as int) + rest);
        },
        Instr::LocalGet(name) => {
            lemma_sleb128_reads_back(local_index(names, name), rest);
            assert(s.drop_first() == sleb128(local_index(names, name)) + rest);
        },
        _ => {
            assert(s.drop_first() == rest);
        },
    }
}

/// The binary code of an instruction sequence reads back as the same
/// instructions, each local by its index: the encoding loses nothing and
/// has exactly one reading.
pub proof fn lemma_code_bytes_read_back(code: Seq<Instr>, names: Seq<Seq<char>>)
    ensures
        read_code(code_bytes(code, names)) == Some(code.map_values(|i: Instr| indexed(i, names))),
    decreases code.len(),
{
    if code.len() > 0 {
        let tail = code.drop_first();
        lemma_code_bytes_read_back(tail, names);
        assert(code == seq![code[0]] + tail);
        lemma_code_bytes_append(seq![code[0]], tail, names);
        assert(seq![code[0]].drop_last() == Seq::<Instr>::empty());
        assert(code_bytes(Seq::<Instr>::empty(), names) == Seq::<u8>::empty());
        assert(code_bytes(seq![code[0]], names) =~= instr_bytes(code[0], names));
        lemma_read_instr_bytes(code[0], names, code_bytes(tail, names));
        assert(code.map_values(|i: Instr| indexed(i, names)) == seq![indexed(code[0], names)]
            + tail.map_values(|i: Instr| indexed(i, names)));
    } else {
        assert(code.map_values(|i: Instr| indexed(i, names)) == Seq::<IndexedInstr>::empty());
    }
}

} // verus!
