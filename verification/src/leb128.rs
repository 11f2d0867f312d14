//! Signed LEB128, the variable-length integer encoding of WebAssembly.

use vstd::prelude::*;

verus! {

/// The absolute value of an integer.
pub open spec fn abs(i: int) -> nat {
    if i < 0 { (-i) as nat } else { i as nat }
}

/// The signed LEB128 encoding of `i`: groups of seven bits, least
/// significant first, each byte but the last with its high bit set, and
/// as few bytes as needed for bit six of the last byte to carry the sign.
pub open spec fn sleb128(i: int) -> Seq<u8>
    decreases abs(i),
{
    let low = i % 128;
    let high = i / 128;
    if (high == 0 && low < 64) || (high == -1 && low >= 64) {
        seq![low as u8]
    } else {
        seq![(low + 128) as u8] + sleb128(high)
    }
}

/// Appends the signed LEB128 encoding of `i` to `out`.
pub fn write_leb128(i: i128, out: &mut Vec<u8>)
    ensures
        final(out)@ == old(out)@ + sleb128(i as int),
{
    let ghost i0 = i;
    let mut i = i;
    loop
        invariant_except_break
            old(out)@ + sleb128(i0 as int) == out@ + sleb128(i as int),
        ensures
            out@ == old(out)@ + sleb128(i0 as int),
        decreases abs(i as int),
    {
        let low = i & 0x7f;
        let high = i >> 7;
        assert((i >> 7) * 128 + (i & 0x7f) == i && 0 <= (i & 0x7f) < 128) by (bit_vector);
        proof {
            vstd::arithmetic::div_mod::lemma_fundamental_div_mod_converse(i as int, 128, high as int, low as int);
        }
        let byte = low as u8;
        let has_sign = (byte & 0x40) != 0;
        assert(((byte & 0x40) != 0) == (byte >= 64)) by (bit_vector) requires byte < 128;
        i = high;
        if (i == 0 && !has_sign) || (i == -1 && has_sign) {
            out.push(byte);
            break;
        }
        assert(byte | 0x80 == byte + 128) by (bit_vector) requires byte < 128;
        out.push(byte | 0x80);
    }
}

/// The least value, `64 * 128^(k - 1)`, whose encoding takes more than `k` bytes.
pub open spec fn sleb128_capacity(k: nat) -> int
    decreases k,
{
    if k <= 1 {
        64
    } else {
        128 * sleb128_capacity((k - 1) as nat)
    }
}

/// A natural number below `sleb128_capacity(k)` takes at most `k` bytes.
pub proof fn lemma_sleb128_len(n: int, k: nat)
    requires
        k >= 1,
        0 <= n < sleb128_capacity(k),
    ensures
        sleb128(n).len() <= k,
    decreases k,
{
    if n >= 64 {
        lemma_sleb128_len(n / 128, (k - 1) as nat);
    }
}

/// A `usize` takes at most ten bytes.
pub proof fn lemma_sleb128_usize_len(n: int)
    requires
        0 <= n <= usize::MAX,
    ensures
        1 <= sleb128(n).len() <= 10,
{
    reveal_with_fuel(sleb128_capacity, 10);
    lemma_sleb128_len(n, 10);
}
/// Reading a signed LEB128 number from the front of `s`: bytes with the
/// high bit set up to one without it, the low seven bits of each the value's
/// digits, least significant first, and bit six of the last byte its sign.
/// Gives the value and the bytes after it, or `None` where `s` ends first.
pub open spec fn read_sleb128(s: Seq<u8>) -> Option<(int, Seq<u8>)>
    decreases s.len(),
{
    if s.len() == 0 {
        None
    } else if s[0] < 128 {
        Some((if s[0] < 64 { s[0] as int } else { s[0] - 128 }, s.drop_first()))
    } else {
        match read_sleb128(s.drop_first()) {
            Some((v, rest)) => Some(((s[0] - 128) + 128 * v, rest)),
            None => None,
        }
    }
}

/// A reader of signed LEB128 gets back what was written, and stops where
/// the encoding ends.
pub proof fn lemma_sleb128_reads_back(i: int, rest: Seq<u8>)
    ensures
        read_sleb128(sleb128(i) + rest) == Some((i, rest)),
    decreases abs(i),
{
    let low = i % 128;
    let high = i / 128;
    let s = sleb128(i) + rest;
    if (high == 0 && low < 64) || (high == -1 && low >= 64) {
        assert(s.drop_first() == rest);
    } else {
        lemma_sleb128_reads_back(high, rest);
        assert(s.drop_first() == sleb128(high) + rest);
    }
}

} // verus!
