//! Byte-level lexical helpers: character classes of the surface grammar and
//! the decimal / hexadecimal digit renderings used by the stringifier.

use vstd::prelude::*;

verus! {

/// ASCII decimal digit.
pub open spec fn is_dec_digit(c: u8) -> bool {
    48 <= c && c <= 57
}

/// ASCII whitespace, as the trivia skipper accepts it.
pub open spec fn is_space(c: u8) -> bool {
    c == 32 || c == 9 || c == 10 || c == 12 || c == 13
}

/// A byte that may occur in a definition or variable name.
pub open spec fn is_name_byte(c: u8) -> bool {
    is_dec_digit(c) || (65 <= c && c <= 90) || (97 <= c && c <= 122) || c == 95 || c == 46
        || c == 45 || c == 47 || c == 36
}

/// A byte that may occur in a numeric literal.
pub open spec fn is_lit_byte(c: u8) -> bool {
    is_dec_digit(c) || (65 <= c && c <= 90) || (97 <= c && c <= 122) || c == 43 || c == 45
        || c == 46
}

pub fn byte_is_space(c: u8) -> (r: bool)
    ensures
        r == is_space(c),
{
    c == 32 || c == 9 || c == 10 || c == 12 || c == 13
}

pub fn byte_is_name(c: u8) -> (r: bool)
    ensures
        r == is_name_byte(c),
{
    (48 <= c && c <= 57) || (65 <= c && c <= 90) || (97 <= c && c <= 122) || c == 95 || c == 46
        || c == 45 || c == 47 || c == 36
}

pub fn byte_is_lit(c: u8) -> (r: bool)
    ensures
        r == is_lit_byte(c),
{
    (48 <= c && c <= 57) || (65 <= c && c <= 90) || (97 <= c && c <= 122) || c == 43 || c == 45
        || c == 46
}

/// Decimal rendering of a natural number, most significant digit first.
pub open spec fn dec_of(v: nat) -> Seq<u8>
    decreases v,
{
    if v < 10 {
        seq![(48 + v) as u8]
    } else {
        dec_of(v / 10) + seq![(48 + v % 10) as u8]
    }
}

/// Minimal lowercase hexadecimal rendering, most significant digit first.
pub open spec fn hex_min_of(v: nat) -> Seq<u8>
    decreases v,
{
    if v < 16 {
        seq![hex_digit_lower(v)]
    } else {
        hex_min_of(v / 16) + seq![hex_digit_lower(v % 16)]
    }
}

pub open spec fn hex_digit_lower(d: nat) -> u8 {
    if d < 10 {
        (48 + d) as u8
    } else {
        (87 + d) as u8
    }
}

pub open spec fn hex_digit_upper(d: nat) -> u8 {
    if d < 10 {
        (48 + d) as u8
    } else {
        (55 + d) as u8
    }
}

/// Zero-padded uppercase hexadecimal rendering of the low `4 * n` bits of `v`.
pub open spec fn hex_fixed_of(v: u32, n: nat) -> Seq<u8>
    decreases n,
{
    if n == 0 {
        Seq::empty()
    } else {
        seq![hex_digit_upper(((v >> (((n - 1) * 4) as u32)) & 0xF) as nat)] + hex_fixed_of(
            v,
            (n - 1) as nat,
        )
    }
}

pub fn u32_dec(v: u32) -> (r: Vec<u8>)
    ensures
        r@ == dec_of(v as nat),
    decreases v,
{
    if v < 10 {
        let mut r: Vec<u8> = Vec::new();
        r.push(48 + v as u8);
        r
    } else {
        assert(v / 10 < v);
        let mut r = u32_dec(v / 10);
        r.push(48 + (v % 10) as u8);
        r
    }
}

pub fn u32_hex_min(v: u32) -> (r: Vec<u8>)
    ensures
        r@ == hex_min_of(v as nat),
    decreases v,
{
    if v < 16 {
        let d: u8 = v as u8;
        let mut r: Vec<u8> = Vec::new();
        if d < 10 {
            r.push(48 + d);
        } else {
            r.push(87 + d);
        }
        r
    } else {
        assert(v / 16 < v);
        let mut r = u32_hex_min(v / 16);
        let d: u8 = (v % 16) as u8;
        if d < 10 {
            r.push(48 + d);
        } else {
            r.push(87 + d);
        }
        r
    }
}

/// Uppercase hexadecimal rendering of `v`, zero padded to seven digits.
pub fn u32_hex7(v: u32) -> (r: Vec<u8>)
    ensures
        r@ == hex_fixed_of(v, 7),
{
    let mut r: Vec<u8> = Vec::new();
    let mut k: usize = 7;
    while k > 0
        invariant
            k <= 7,
            r@ == hex_fixed_of(v, 7).subrange(0, 7 - k),
        decreases k,
    {
        let sh: u32 = ((k - 1) as u32) * 4;
        assert((v >> sh) & 0xF < 16) by (bit_vector);
        let d: u8 = ((v >> sh) & 0xF) as u8;
        if d < 10 {
            r.push(48 + d);
        } else {
            r.push(55 + d);
        }
        proof {
            let i = (7 - k) as nat;
            lemma_hex_fixed_index(v, 7, i);
            assert((7 - 1 - i) * 4 == (k - 1) * 4);
            assert(v >> (((7 - 1 - i) * 4) as u32) == v >> sh);
            assert(hex_fixed_of(v, 7)[i as int] == hex_digit_upper(((v >> sh) & 0xF) as nat));
            assert(r@ =~= hex_fixed_of(v, 7).subrange(0, 7 - (k - 1)));
        }
        k = k - 1;
    }
    proof {
        lemma_hex_fixed_len(v, 7);
        assert(r@ =~= hex_fixed_of(v, 7));
    }
    r
}

/// The digit at position `i` (from the left) of the `n`-digit rendering reads
/// the nibble `n - 1 - i` of `v`.
proof fn lemma_hex_fixed_index(v: u32, n: nat, i: nat)
    requires
        i < n,
    ensures
        hex_fixed_of(v, n).len() == n,
        hex_fixed_of(v, n)[i as int] == hex_digit_upper(
            ((v >> (((n - 1 - i) * 4) as u32)) & 0xF) as nat,
        ),
    decreases n,
{
    if n > 0 && i > 0 {
        lemma_hex_fixed_index(v, (n - 1) as nat, (i - 1) as nat);
    }
    if n > 0 {
        lemma_hex_fixed_len(v, (n - 1) as nat);
    }
}

proof fn lemma_hex_fixed_len(v: u32, n: nat)
    ensures
        hex_fixed_of(v, n).len() == n,
    decreases n,
{
    if n > 0 {
        lemma_hex_fixed_len(v, (n - 1) as nat);
    }
}

/// Appends every byte of `s` to `out`.
pub fn push_all(out: &mut Vec<u8>, s: &[u8])
    ensures
        final(out)@ == old(out)@ + s@,
{
    let mut i: usize = 0;
    while i < s.len()
        invariant
            i <= s@.len(),
            out@ == old(out)@ + s@.subrange(0, i as int),
        decreases s@.len() - i,
    {
        out.push(s[i]);
        proof {
            assert(out@ =~= old(out)@ + s@.subrange(0, i + 1));
        }
        i = i + 1;
    }
    proof {
        assert(out@ =~= old(out)@ + s@);
    }
}

} // verus!
