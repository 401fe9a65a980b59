//! Packed 32-bit tagged numeric values: unsigned and signed 24-bit integers,
//! 24-bit floats, operator symbols, and partially applied operators.
//!
//! Layout: the low five bits hold the type tag; the remaining bits hold the
//! payload. For a bare symbol the payload is the operator code; for a partial
//! application the tag is the operator code and the payload the operand.

use vstd::prelude::*;

use crate::lex::{dec_of, hex_fixed_of, u32_dec, u32_hex7, push_all};

verus! {

/// The decimal rendering of the float value selected by an `f32` bit pattern;
/// it depends on the bits alone.
pub uninterp spec fn apf_dec_of_bits(bits: u32) -> Seq<u8>;

/// The correctly rounded value of a decimal float literal, as an `f32` bit
/// pattern, or nothing when the literal is malformed; it depends on the
/// literal alone.
pub uninterp spec fn apf_bits_of_dec(s: Seq<u8>) -> Option<u32>;

/// Relies on `rustc_apfloat::ieee::Single`'s `Display` impl: a pure decimal
/// rendering of the single-precision float with the given bit pattern.
#[verifier::external_body]
pub fn fmt_f32bits(bits: u32) -> (r: Vec<u8>)
    ensures
        r@ == apf_dec_of_bits(bits),
{
    let f = <rustc_apfloat::ieee::Single as rustc_apfloat::Float>::from_bits(bits as u128);
    f.to_string().into_bytes()
}

/// Relies on `rustc_apfloat::ieee::Single`'s `FromStr` impl: the correctly
/// rounded single-precision value of a decimal literal, as its bit pattern.
#[verifier::external_body]
pub fn parse_f32bits(lit: &[u8]) -> (r: Option<u32>)
    ensures
        r == apf_bits_of_dec(lit@),
{
    let s = match core::str::from_utf8(lit) {
        Ok(s) => s,
        Err(_) => return None,
    };
    match s.parse::<rustc_apfloat::ieee::Single>() {
        Ok(f) => Some(rustc_apfloat::Float::to_bits(f) as u32),
        Err(_) => None,
    }
}

pub const TY_SYM: u32 = 0x00;

pub const TY_U24: u32 = 0x01;

pub const TY_I24: u32 = 0x02;

pub const TY_F24: u32 = 0x03;

pub const OP_ADD: u32 = 0x04;

pub const OP_SUB: u32 = 0x05;

pub const FP_SUB: u32 = 0x06;

pub const OP_MUL: u32 = 0x07;

pub const OP_DIV: u32 = 0x08;

pub const FP_DIV: u32 = 0x09;

pub const OP_REM: u32 = 0x0A;

pub const FP_REM: u32 = 0x0B;

pub const OP_EQ: u32 = 0x0C;

pub const OP_NEQ: u32 = 0x0D;

pub const OP_LT: u32 = 0x0E;

pub const OP_GT: u32 = 0x0F;

pub const OP_AND: u32 = 0x10;

pub const OP_OR: u32 = 0x11;

pub const OP_XOR: u32 = 0x12;

pub const OP_SHL: u32 = 0x13;

pub const FP_SHL: u32 = 0x14;

pub const OP_SHR: u32 = 0x15;

pub const FP_SHR: u32 = 0x16;

/// A packed 32-bit tagged numeric value.
#[derive(Clone, Copy, PartialEq, Eq, Structural, Debug, Hash)]
pub struct Numb(pub u32);

/// The type tag: the low five bits.
pub open spec fn typ_of(n: u32) -> u32 {
    n & 0x1F
}

/// The payload: everything above the tag.
pub open spec fn pay_of(n: u32) -> u32 {
    n >> 5u32
}

/// A bare symbol: the operator or cast code in the payload, tagged `TY_SYM`.
pub open spec fn sym_numb(op: u32) -> u32 {
    (op << 5u32) | TY_SYM
}

pub open spec fn u24_numb(v: u32) -> u32 {
    (v << 5u32) | TY_U24
}

pub open spec fn i24_numb(v: i32) -> u32 {
    (((v as u32) << 8u32) >> 3u32) | TY_I24
}

/// The signed 24-bit payload, sign extended.
pub open spec fn i24_of(n: u32) -> i32 {
    ((n as i32) << 3u32) >> 8u32
}

/// A partial application keeps the literal's payload and replaces the tag by
/// the operator code of the symbol.
pub open spec fn partial_numb(op_sym: u32, lit: u32) -> u32 {
    (lit & !0x1F) | (pay_of(op_sym) & 0x1F)
}

/// The IEEE single-precision bit pattern of a NaN.
pub open spec fn f32bits_is_nan(b: u32) -> bool {
    (b >> 23u32) & 0xFF == 0xFF && b & 0x7FFFFF != 0
}

pub open spec fn f32bits_is_pos_inf(b: u32) -> bool {
    b == 0x7F800000
}

pub open spec fn f32bits_is_neg_inf(b: u32) -> bool {
    b == 0xFF800000
}

/// Rounding increment when the low eight bits of an `f32` pattern are dropped:
/// round to nearest, ties to even.
pub open spec fn f24_round_inc(b: u32) -> u32 {
    let lost = b & 0xFF;
    let kept = b >> 8u32;
    if f32bits_is_nan(b) {
        0u32
    } else if lost > 0x80 || (lost == 0x80 && kept & 1 == 1) {
        1u32
    } else {
        0u32
    }
}

/// A 24-bit float value: the high 24 bits of the `f32` pattern, rounded.
pub open spec fn f24_numb(b: u32) -> u32 {
    (((((b >> 8u32) + f24_round_inc(b)) * 32) + TY_F24) % 0x100000000) as u32
}

/// The `f32` bit pattern selected by a 24-bit float payload.
pub open spec fn f24_f32bits_of(n: u32) -> u32 {
    (n << 3u32) & 0xFFFFFF00
}

impl Numb {
    pub open spec fn typ(self) -> u32 {
        typ_of(self.0)
    }

    pub open spec fn pay(self) -> u32 {
        pay_of(self.0)
    }

    pub fn get_typ(&self) -> (r: u32)
        ensures
            r == self.typ(),
    {
        self.0 & 0x1F
    }

    pub fn get_sym(&self) -> (r: u32)
        ensures
            r == pay_of(self.0),
    {
        self.0 >> 5u32
    }

    pub fn get_u24(&self) -> (r: u32)
        ensures
            r == pay_of(self.0),
    {
        self.0 >> 5u32
    }

    pub fn get_i24(&self) -> (r: i32)
        ensures
            r == i24_of(self.0),
    {
        ((self.0 as i32) << 3u32) >> 8u32
    }

    pub fn new_sym(op: u32) -> (r: Numb)
        ensures
            r.0 == sym_numb(op),
    {
        Numb((op << 5u32) | TY_SYM)
    }

    pub fn new_u24(v: u32) -> (r: Numb)
        ensures
            r.0 == u24_numb(v),
    {
        Numb((v << 5u32) | TY_U24)
    }

    pub fn new_i24(v: i32) -> (r: Numb)
        ensures
            r.0 == i24_numb(v),
    {
        Numb((((v as u32) << 8u32) >> 3u32) | TY_I24)
    }

    /// Packs an `f32` bit pattern into a 24-bit float value, rounding the
    /// dropped mantissa bits to nearest, ties to even.
    pub fn new_f24_bits(b: u32) -> (r: Numb)
        ensures
            r.0 == f24_numb(b),
    {
        let lost: u32 = b & 0xFF;
        let kept: u32 = b >> 8u32;
        assert(lost < 256 && kept < 0x1000000) by (bit_vector)
            requires
                lost == b & 0xFF && kept == b >> 8u32,
        ;
        let exp: u32 = (b >> 23u32) & 0xFF;
        let man: u32 = b & 0x7FFFFF;
        let is_nan: bool = exp == 0xFF && man != 0;
        let inc: u32 = if is_nan {
            0
        } else if lost > 0x80 || (lost == 0x80 && kept & 1 == 1) {
            1
        } else {
            0
        };
        let v: u32 = kept + inc;
        let r: u32 = (v << 5u32) | TY_F24;
        assert(r == ((v * 32 + 3) % 0x100000000) as u32) by (bit_vector)
            requires
                v < 0x1000001 && r == (v << 5u32) | 3u32,
        ;
        Numb(r)
    }

    /// Unpacks a 24-bit float value back to its `f32` bit pattern.
    pub fn get_f24_bits(&self) -> (r: u32)
        ensures
            r == f24_f32bits_of(self.0),
    {
        (self.0 << 3u32) & 0xFFFFFF00
    }

    pub fn partial(op_sym: Numb, lit: Numb) -> (r: Numb)
        ensures
            r.0 == partial_numb(op_sym.0, lit.0),
    {
        Numb((lit.0 & !0x1F) | ((op_sym.0 >> 5u32) & 0x1F))
    }
}

/// The bracketed token of an operator or cast code, `?` when unknown.
pub open spec fn sym_token(op: u32) -> Seq<u8> {
    if op == TY_U24 {
        seq!['u' as u8, '2' as u8, '4' as u8]
    } else if op == TY_I24 {
        seq!['i' as u8, '2' as u8, '4' as u8]
    } else if op == TY_F24 {
        seq!['f' as u8, '2' as u8, '4' as u8]
    } else {
        op_token(op)
    }
}

/// The token of an arithmetic, comparison or bitwise operator code.
pub open spec fn op_token(op: u32) -> Seq<u8> {
    if op == OP_ADD {
        seq!['+' as u8]
    } else if op == OP_SUB {
        seq!['-' as u8]
    } else if op == FP_SUB {
        seq![':' as u8, '-' as u8]
    } else if op == OP_MUL {
        seq!['*' as u8]
    } else if op == OP_DIV {
        seq!['/' as u8]
    } else if op == FP_DIV {
        seq![':' as u8, '/' as u8]
    } else if op == OP_REM {
        seq!['%' as u8]
    } else if op == FP_REM {
        seq![':' as u8, '%' as u8]
    } else if op == OP_EQ {
        seq!['=' as u8]
    } else if op == OP_NEQ {
        seq!['!' as u8]
    } else if op == OP_LT {
        seq!['<' as u8]
    } else if op == OP_GT {
        seq!['>' as u8]
    } else if op == OP_AND {
        seq!['&' as u8]
    } else if op == OP_OR {
        seq!['|' as u8]
    } else if op == OP_XOR {
        seq!['^' as u8]
    } else if op == OP_SHL {
        seq!['<' as u8, '<' as u8]
    } else if op == FP_SHL {
        seq![':' as u8, '<' as u8, '<' as u8]
    } else if op == OP_SHR {
        seq!['>' as u8, '>' as u8]
    } else if op == FP_SHR {
        seq![':' as u8, '>' as u8, '>' as u8]
    } else {
        seq!['?' as u8]
    }
}

/// Whether a rendering already reads back as a float: it holds a decimal
/// point or an exponent marker.
pub open spec fn has_float_marker(s: Seq<u8>) -> bool {
    exists|i: int|
        0 <= i < s.len() && (s[i] == '.' as u8 || s[i] == 'e' as u8 || s[i] == 'E' as u8)
}

/// A finite float rendering, completed with `.0` when it would otherwise read
/// back as an integer.
pub open spec fn float_text(s: Seq<u8>) -> Seq<u8> {
    if has_float_marker(s) {
        s
    } else {
        s + seq!['.' as u8, '0' as u8]
    }
}

/// The exact textual rendering of a packed numeric value.
pub open spec fn show_numb(n: u32) -> Seq<u8> {
    let typ = typ_of(n);
    if typ == TY_SYM {
        seq!['[' as u8] + sym_token(pay_of(n)) + seq![']' as u8]
    } else if typ == TY_U24 {
        dec_of(pay_of(n) as nat)
    } else if typ == TY_I24 {
        let v = i24_of(n);
        if v >= 0 {
            seq!['+' as u8] + dec_of(v as nat)
        } else {
            seq!['-' as u8] + dec_of((-(v as int)) as nat)
        }
    } else if typ == TY_F24 {
        let b = f24_f32bits_of(n);
        if f32bits_is_pos_inf(b) {
            seq!['+' as u8, 'i' as u8, 'n' as u8, 'f' as u8]
        } else if f32bits_is_neg_inf(b) {
            seq!['-' as u8, 'i' as u8, 'n' as u8, 'f' as u8]
        } else if f32bits_is_nan(b) {
            seq!['+' as u8, 'N' as u8, 'a' as u8, 'N' as u8]
        } else {
            float_text(apf_dec_of_bits(b))
        }
    } else {
        seq!['[' as u8] + op_token(typ) + seq!['0' as u8, 'x' as u8] + hex_fixed_of(pay_of(n), 7)
            + seq![']' as u8]
    }
}

fn push_op_token(out: &mut Vec<u8>, op: u32)
    ensures
        final(out)@ == old(out)@ + op_token(op),
{
    if op == OP_ADD {
        out.push('+' as u8);
    } else if op == OP_SUB {
        out.push('-' as u8);
    } else if op == FP_SUB {
        out.push(':' as u8);
        out.push('-' as u8);
    } else if op == OP_MUL {
        out.push('*' as u8);
    } else if op == OP_DIV {
        out.push('/' as u8);
    } else if op == FP_DIV {
        out.push(':' as u8);
        out.push('/' as u8);
    } else if op == OP_REM {
        out.push('%' as u8);
    } else if op == FP_REM {
        out.push(':' as u8);
        out.push('%' as u8);
    } else if op == OP_EQ {
        out.push('=' as u8);
    } else if op == OP_NEQ {
        out.push('!' as u8);
    } else if op == OP_LT {
        out.push('<' as u8);
    } else if op == OP_GT {
        out.push('>' as u8);
    } else if op == OP_AND {
        out.push('&' as u8);
    } else if op == OP_OR {
        out.push('|' as u8);
    } else if op == OP_XOR {
        out.push('^' as u8);
    } else if op == OP_SHL {
        out.push('<' as u8);
        out.push('<' as u8);
    } else if op == FP_SHL {
        out.push(':' as u8);
        out.push('<' as u8);
        out.push('<' as u8);
    } else if op == OP_SHR {
        out.push('>' as u8);
        out.push('>' as u8);
    } else if op == FP_SHR {
        out.push(':' as u8);
        out.push('>' as u8);
        out.push('>' as u8);
    } else {
        out.push('?' as u8);
    }
    proof {
        assert(out@ =~= old(out)@ + op_token(op));
    }
}

fn push_sym_token(out: &mut Vec<u8>, op: u32)
    ensures
        final(out)@ == old(out)@ + sym_token(op),
{
    if op == TY_U24 {
        out.push('u' as u8);
        out.push('2' as u8);
        out.push('4' as u8);
        proof {
            assert(out@ =~= old(out)@ + sym_token(op));
        }
    } else if op == TY_I24 {
        out.push('i' as u8);
        out.push('2' as u8);
        out.push('4' as u8);
        proof {
            assert(out@ =~= old(out)@ + sym_token(op));
        }
    } else if op == TY_F24 {
        out.push('f' as u8);
        out.push('2' as u8);
        out.push('4' as u8);
        proof {
            assert(out@ =~= old(out)@ + sym_token(op));
        }
    } else {
        push_op_token(out, op);
    }
}

fn has_marker(s: &Vec<u8>) -> (r: bool)
    ensures
        r == has_float_marker(s@),
{
    let mut i: usize = 0;
    while i < s.len()
        invariant
            i <= s@.len(),
            forall|j: int|
                0 <= j < i ==> !(s@[j] == '.' as u8 || s@[j] == 'e' as u8 || s@[j] == 'E' as u8),
        decreases s@.len() - i,
    {
        let c: u8 = s[i];
        if c == '.' as u8 || c == 'e' as u8 || c == 'E' as u8 {
            return true;
        }
        i = i + 1;
    }
    false
}

impl Numb {
    /// Renders the value exactly as the parser reads it back.
    pub fn show(&self) -> (r: Vec<u8>)
        ensures
            r@ == show_numb(self.0),
    {
        let w: u32 = self.0;
        let typ: u32 = self.get_typ();
        assert(typ < 32) by (bit_vector)
            requires
                typ == w & 0x1F,
        ;
        if typ == TY_SYM {
            let mut out: Vec<u8> = Vec::new();
            out.push('[' as u8);
            push_sym_token(&mut out, self.get_sym());
            out.push(']' as u8);
            proof {
                assert(out@ =~= show_numb(self.0));
            }
            out
        } else if typ == TY_U24 {
            u32_dec(self.get_u24())
        } else if typ == TY_I24 {
            let v: i32 = self.get_i24();
            proof {
                assert(-0x800000 <= ((w as i32) << 3u32) >> 8u32 < 0x800000) by (bit_vector);
            }
            let mut out: Vec<u8> = Vec::new();
            if v >= 0 {
                out.push('+' as u8);
                let digits = u32_dec(v as u32);
                push_all(&mut out, digits.as_slice());
            } else {
                out.push('-' as u8);
                let digits = u32_dec((-v) as u32);
                push_all(&mut out, digits.as_slice());
            }
            proof {
                assert(out@ =~= show_numb(self.0));
            }
            out
        } else if typ == TY_F24 {
            let b: u32 = self.get_f24_bits();
            let exp: u32 = (b >> 23u32) & 0xFF;
            let man: u32 = b & 0x7FFFFF;
            let mut out: Vec<u8> = Vec::new();
            if b == 0x7F800000 {
                out.push('+' as u8);
                out.push('i' as u8);
                out.push('n' as u8);
                out.push('f' as u8);
            } else if b == 0xFF800000 {
                out.push('-' as u8);
                out.push('i' as u8);
                out.push('n' as u8);
                out.push('f' as u8);
            } else if exp == 0xFF && man != 0 {
                out.push('+' as u8);
                out.push('N' as u8);
                out.push('a' as u8);
                out.push('N' as u8);
            } else {
                let mut text = fmt_f32bits(b);
                if !has_marker(&text) {
                    text.push('.' as u8);
                    text.push('0' as u8);
                }
                out = text;
            }
            proof {
                assert(out@ =~= show_numb(self.0));
            }
            out
        } else {
            let mut out: Vec<u8> = Vec::new();
            out.push('[' as u8);
            push_op_token(&mut out, typ);
            out.push('0' as u8);
            out.push('x' as u8);
            let digits = u32_hex7(self.get_u24());
            push_all(&mut out, digits.as_slice());
            out.push(']' as u8);
            proof {
                assert(out@ =~= show_numb(self.0));
            }
            out
        }
    }
}

} // verus!
