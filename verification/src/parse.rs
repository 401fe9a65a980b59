//! Recursive-descent parser from the textual notation to the syntax tree:
//! trivia skipping, names, numeric literals and symbols, trees, nets and
//! books.

use vstd::prelude::*;

use crate::lex::{is_dec_digit, is_lit_byte, is_name_byte, is_space, byte_is_lit, byte_is_name};
use crate::numb::Numb;
use vstd::string::StringSliceAdditionalSpecFns;

verus! {

/// A syntax error: a message and the byte span it points at.
#[derive(PartialEq, Eq, Debug)]
pub struct ParseError {
    pub ini: usize,
    pub end: usize,
    pub msg: Vec<u8>,
}

/// The rendering of the span `ini..end` of the source, underlined and with
/// line numbers; it depends on the arguments alone.
pub uninterp spec fn highlight_of(ini: usize, end: usize, text: Seq<u8>) -> Seq<u8>;

/// Relies on `highlight_error::highlight_error`: a pure rendering of a source
/// span, used in syntax error messages.
#[verifier::external_body]
fn highlight_span(ini: usize, end: usize, text: &[u8]) -> (r: Vec<u8>)
    requires
        ini <= end,
    ensures
        r@ == highlight_of(ini, end, text@),
{
    let s = String::from_utf8_lossy(text);
    highlight_error::highlight_error(ini, end, &s).into_bytes()
}

/// The index just after the trivia (whitespace and `//` comments) that starts
/// at `i`; `in_comment` tells whether `i` is inside a comment body.
pub open spec fn sp_trivia_at(s: Seq<u8>, i: nat, in_comment: bool) -> nat
    decreases s.len() - i,
    when i <= s.len()
{
    if i >= s.len() {
        i
    } else if in_comment {
        if s[i as int] == '\n' as u8 {
            sp_trivia_at(s, i + 1, false)
        } else {
            sp_trivia_at(s, i + 1, true)
        }
    } else {
        if is_space(s[i as int]) {
            sp_trivia_at(s, i + 1, false)
        } else if s[i as int] == '/' as u8 && i + 1 < s.len() && s[i + 1 as int] == '/' as u8 {
            sp_trivia_at(s, i + 2, true)
        } else {
            i
        }
    }
}

pub open spec fn sp_trivia(s: Seq<u8>, i: nat) -> nat {
    sp_trivia_at(s, i, false)
}

/// The end of the run of name bytes starting at `i`.
pub open spec fn scan_name(s: Seq<u8>, i: nat) -> nat
    decreases s.len() - i,
    when i <= s.len()
{
    if i >= s.len() {
        i
    } else if is_name_byte(s[i as int]) {
        scan_name(s, i + 1)
    } else {
        i
    }
}

/// The end of the run of literal bytes starting at `i`.
pub open spec fn scan_lit(s: Seq<u8>, i: nat) -> nat
    decreases s.len() - i,
    when i <= s.len()
{
    if i >= s.len() {
        i
    } else if is_lit_byte(s[i as int]) {
        scan_lit(s, i + 1)
    } else {
        i
    }
}

/// Whether the token `tok` occurs at position `i` of `s`.
pub open spec fn sp_starts_with(s: Seq<u8>, i: nat, tok: Seq<u8>) -> bool {
    i + tok.len() <= s.len() && s.subrange(i as int, (i + tok.len()) as int) == tok
}

/// Skips trivia, then demands the token `tok`: the index just after it, or
/// nothing when it is absent.
pub open spec fn sp_consume(s: Seq<u8>, i: nat, tok: Seq<u8>) -> Option<nat> {
    let j = sp_trivia(s, i);
    if sp_starts_with(s, j, tok) {
        Option::Some((j + tok.len()) as nat)
    } else {
        Option::None
    }
}

/// Skips trivia, then takes a non-empty run of name bytes.
pub open spec fn sp_name(s: Seq<u8>, i: nat) -> Option<(Seq<u8>, nat)> {
    let j = sp_trivia(s, i);
    let k = scan_name(s, j);
    if k == j {
        Option::None
    } else {
        Option::Some((s.subrange(j as int, k as int), k))
    }
}

/// Skipping trivia twice is the same as skipping it once.
proof fn lemma_trivia_idem(s: Seq<u8>, i: nat)
    requires
        i <= s.len(),
    ensures
        sp_trivia(s, sp_trivia(s, i)) == sp_trivia(s, i),
{
    lemma_trivia_fix(s, i, false);
    lemma_trivia_bounds(s, i, false);
}

/// The landing position of the trivia skipper is a fixed point: either the
/// end of the input, or a byte that starts no trivia.
proof fn lemma_trivia_fix(s: Seq<u8>, i: nat, in_comment: bool)
    requires
        i <= s.len(),
    ensures
        ({
            let p = sp_trivia_at(s, i, in_comment);
            p >= s.len() || (!is_space(s[p as int]) && !(s[p as int] == '/' as u8 && p + 1
                < s.len() && s[p + 1 as int] == '/' as u8))
        }),
    decreases s.len() - i,
{
    if i < s.len() {
        if in_comment {
            lemma_trivia_fix(s, i + 1, s[i as int] != '\n' as u8);
        } else if is_space(s[i as int]) {
            lemma_trivia_fix(s, i + 1, false);
        } else if s[i as int] == '/' as u8 && i + 1 < s.len() && s[i + 1 as int] == '/' as u8 {
            lemma_trivia_fix(s, i + 2, true);
        }
    }
}

proof fn lemma_trivia_bounds(s: Seq<u8>, i: nat, in_comment: bool)
    requires
        i <= s.len(),
    ensures
        i <= sp_trivia_at(s, i, in_comment) <= s.len(),
    decreases s.len() - i,
{
    if i < s.len() {
        if in_comment {
            lemma_trivia_bounds(s, i + 1, s[i as int] != '\n' as u8);
        } else if is_space(s[i as int]) {
            lemma_trivia_bounds(s, i + 1, false);
        } else if s[i as int] == '/' as u8 && i + 1 < s.len() && s[i + 1 as int] == '/' as u8 {
            lemma_trivia_bounds(s, i + 2, true);
        }
    }
}

proof fn lemma_scan_name_bounds(s: Seq<u8>, i: nat)
    requires
        i <= s.len(),
    ensures
        i <= scan_name(s, i) <= s.len(),
        forall|k: int| i <= k < scan_name(s, i) ==> is_name_byte(s[k]),
        scan_name(s, i) < s.len() ==> !is_name_byte(s[scan_name(s, i) as int]),
    decreases s.len() - i,
{
    if i < s.len() && is_name_byte(s[i as int]) {
        lemma_scan_name_bounds(s, i + 1);
    }
}

proof fn lemma_scan_lit_bounds(s: Seq<u8>, i: nat)
    requires
        i <= s.len(),
    ensures
        i <= scan_lit(s, i) <= s.len(),
        forall|k: int| i <= k < scan_lit(s, i) ==> is_lit_byte(s[k]),
        scan_lit(s, i) < s.len() ==> !is_lit_byte(s[scan_lit(s, i) as int]),
    decreases s.len() - i,
{
    if i < s.len() && is_lit_byte(s[i as int]) {
        lemma_scan_lit_bounds(s, i + 1);
    }
}

/// The end of the run of decimal digits starting at `i`.
pub open spec fn scan_digits(s: Seq<u8>, i: nat) -> nat
    decreases s.len() - i,
    when i <= s.len()
{
    if i >= s.len() {
        i
    } else if is_dec_digit(s[i as int]) {
        scan_digits(s, i + 1)
    } else {
        i
    }
}

/// The value of one digit byte in the given radix, `0`-`9`, `a`-`z` and
/// `A`-`Z` as usual, or nothing when it is no such digit.
pub open spec fn digit_val(c: u8, radix: u32) -> Option<u32> {
    let v: int = if is_dec_digit(c) {
        c - 48
    } else if 97 <= c && c <= 122 {
        c - 87
    } else if 65 <= c && c <= 90 {
        c - 55
    } else {
        0xFF
    };
    if v < radix {
        Option::Some(v as u32)
    } else {
        Option::None
    }
}

/// The value of a digit run in the given radix, or nothing when a byte is no
/// digit of it. The value is exact: no width applies yet.
pub open spec fn radix_val(d: Seq<u8>, radix: u32) -> Option<nat>
    decreases d.len(),
{
    if d.len() == 0 {
        Option::Some(0nat)
    } else {
        match radix_val(d.drop_last(), radix) {
            Option::None => Option::None,
            Option::Some(v) => match digit_val(d.last(), radix) {
                Option::None => Option::None,
                Option::Some(dv) => Option::Some((v * radix + dv) as nat),
            },
        }
    }
}

/// Digits with one optional leading `+`, read in the given radix, as
/// `u64::from_str_radix` reads them: nothing when empty, malformed or too
/// large for 64 bits.
pub open spec fn sp_radix_u64(l: Seq<u8>, radix: u32) -> Option<u64> {
    let d = if l.len() > 0 && l[0] == '+' as u8 {
        l.subrange(1, l.len() as int)
    } else {
        l
    };
    if d.len() == 0 {
        Option::None
    } else {
        match radix_val(d, radix) {
            Option::None => Option::None,
            Option::Some(v) => if v <= u64::MAX {
                Option::Some(v as u64)
            } else {
                Option::None
            },
        }
    }
}

/// An integer literal: `0x` selects hexadecimal, `0b` binary, else decimal.
pub open spec fn sp_int(l: Seq<u8>) -> Option<u64> {
    if sp_starts_with(l, 0, seq!['0' as u8, 'x' as u8]) {
        sp_radix_u64(l.subrange(2, l.len() as int), 16)
    } else if sp_starts_with(l, 0, seq!['0' as u8, 'b' as u8]) {
        sp_radix_u64(l.subrange(2, l.len() as int), 2)
    } else {
        sp_radix_u64(l, 10)
    }
}

proof fn lemma_radix_val_invalid(d: Seq<u8>, radix: u32, k: int)
    requires
        0 <= k < d.len(),
        digit_val(d[k], radix).is_none(),
    ensures
        radix_val(d, radix).is_none(),
    decreases d.len(),
{
    if k < d.len() - 1 {
        assert(d.drop_last()[k] == d[k]);
        lemma_radix_val_invalid(d.drop_last(), radix, k);
    }
}

proof fn lemma_radix_val_mono(d: Seq<u8>, radix: u32, k: int)
    requires
        radix >= 2,
        0 <= k <= d.len(),
        radix_val(d, radix).is_some(),
    ensures
        radix_val(d.subrange(0, k), radix).is_some(),
        radix_val(d.subrange(0, k), radix)->Some_0 <= radix_val(d, radix)->Some_0,
    decreases d.len() - k,
{
    if k == d.len() {
        assert(d.subrange(0, k) =~= d);
    } else {
        assert(radix_val(d.drop_last(), radix).is_some());
        lemma_radix_val_mono(d.drop_last(), radix, k);
        assert(d.subrange(0, k) =~= d.drop_last().subrange(0, k));
        let v = radix_val(d.drop_last(), radix)->Some_0;
        let dv = digit_val(d.last(), radix)->Some_0;
        assert(v * radix + dv >= v) by (nonlinear_arith)
            requires
                radix >= 2,
                v >= 0,
                dv >= 0,
        ;
    }
}

pub open spec fn has_byte(l: Seq<u8>, c: u8) -> bool {
    exists|k: int| 0 <= k < l.len() && l[k] == c
}

pub open spec fn has_sub(l: Seq<u8>, t: Seq<u8>) -> bool {
    exists|k: int| 0 <= k && k + t.len() <= l.len() && #[trigger] l.subrange(k, k + t.len()) == t
}

/// A literal reads as a float when it holds a decimal point, `inf` or `NaN`.
pub open spec fn lit_is_float(l: Seq<u8>) -> bool {
    has_byte(l, '.' as u8) || has_sub(l, seq!['i' as u8, 'n' as u8, 'f' as u8]) || has_sub(
        l,
        seq!['N' as u8, 'a' as u8, 'N' as u8],
    )
}

pub open spec fn lower_b(c: u8) -> u8 {
    if 65 <= c && c <= 90 {
        (c + 32) as u8
    } else {
        c
    }
}

/// Case-insensitive equality against a lowercase token.
pub open spec fn eq_ci(l: Seq<u8>, t: Seq<u8>) -> bool {
    l.len() == t.len() && forall|k: int| 0 <= k < l.len() ==> lower_b(l[k]) == t[k]
}

pub open spec fn inf_f32bits(neg: bool) -> u32 {
    if neg {
        0xFF800000u32
    } else {
        0x7F800000u32
    }
}

pub open spec fn nan_f32bits(neg: bool) -> u32 {
    if neg {
        0xFFC00000u32
    } else {
        0x7FC00000u32
    }
}

/// The shape of a finite decimal float literal: an optional sign, digits with
/// an optional point, at least one mantissa digit, and an optional exponent.
pub open spec fn float_shape_ok(l: Seq<u8>) -> bool {
    let b0: nat = if l.len() > 0 && (l[0] == '+' as u8 || l[0] == '-' as u8) {
        1nat
    } else {
        0nat
    };
    let d1 = scan_digits(l, b0);
    let dotted = d1 < l.len() && l[d1 as int] == '.' as u8;
    let d2 = if dotted {
        scan_digits(l, d1 + 1)
    } else {
        d1
    };
    let has_mant = d1 > b0 || (dotted && d2 > d1 + 1);
    has_mant && (d2 == l.len() || (d2 < l.len() && (l[d2 as int] == 'e' as u8 || l[d2 as int]
        == 'E' as u8) && {
        let e0: nat = if d2 + 1 < l.len() && (l[d2 + 1 as int] == '+' as u8 || l[d2 + 1 as int]
            == '-' as u8) {
            d2 + 2
        } else {
            d2 + 1
        };
        let e1 = scan_digits(l, e0);
        e1 > e0 && e1 == l.len()
    }))
}

/// The packed word of a float literal: signed `inf` and `NaN` by their fixed
/// patterns, a well-shaped finite literal by its correctly rounded value,
/// anything else fails.
pub open spec fn sp_float_word(l: Seq<u8>) -> Option<u32> {
    let neg = l.len() > 0 && l[0] == '-' as u8;
    let body = if l.len() > 0 && (l[0] == '+' as u8 || l[0] == '-' as u8) {
        l.subrange(1, l.len() as int)
    } else {
        l
    };
    if eq_ci(body, seq!['i' as u8, 'n' as u8, 'f' as u8]) || eq_ci(
        body,
        seq![
            'i' as u8,
            'n' as u8,
            'f' as u8,
            'i' as u8,
            'n' as u8,
            'i' as u8,
            't' as u8,
            'y' as u8,
        ],
    ) {
        Option::Some(crate::numb::f24_numb(inf_f32bits(neg)))
    } else if eq_ci(body, seq!['n' as u8, 'a' as u8, 'n' as u8]) {
        Option::Some(crate::numb::f24_numb(nan_f32bits(neg)))
    } else if float_shape_ok(l) {
        match crate::numb::apf_bits_of_dec(l) {
            Option::None => Option::None,
            Option::Some(b) => Option::Some(crate::numb::f24_numb(b)),
        }
    } else {
        Option::None
    }
}

pub open spec fn wrap_neg_i32(x: i32) -> i32 {
    if x == i32::MIN {
        i32::MIN
    } else {
        (-(x as int)) as i32
    }
}

/// The packed word of a whole literal: floats as above; a leading sign selects
/// a signed 24-bit integer, otherwise it is unsigned 24-bit.
pub open spec fn sp_lit_word(l: Seq<u8>) -> Option<u32> {
    if lit_is_float(l) {
        sp_float_word(l)
    } else if l.len() > 0 && (l[0] == '+' as u8 || l[0] == '-' as u8) {
        match sp_int(l.subrange(1, l.len() as int)) {
            Option::None => Option::None,
            Option::Some(v) => {
                let t = v as i32;
                Option::Some(
                    crate::numb::i24_numb(
                        if l[0] == '-' as u8 {
                            wrap_neg_i32(t)
                        } else {
                            t
                        },
                    ),
                )
            },
        }
    } else {
        match sp_int(l) {
            Option::None => Option::None,
            Option::Some(v) => Option::Some(crate::numb::u24_numb(v as u32)),
        }
    }
}

/// A numeric literal at `i`: the run of literal bytes, read as `sp_lit_word`.
pub open spec fn sp_numb_lit(s: Seq<u8>, i: nat) -> Option<(u32, nat)> {
    let j = scan_lit(s, i);
    match sp_lit_word(s.subrange(i as int, j as int)) {
        Option::None => Option::None,
        Option::Some(w) => Option::Some((w, j)),
    }
}

/// A cast token (`u24`, `i24`, `f24`) directly at `i`, with its code.
pub open spec fn sp_cast_tok(s: Seq<u8>, i: nat) -> Option<(u32, nat)> {
    if sp_starts_with(s, i, seq!['u' as u8, '2' as u8, '4' as u8]) {
        Option::Some((crate::numb::TY_U24, (i + 3) as nat))
    } else if sp_starts_with(s, i, seq!['i' as u8, '2' as u8, '4' as u8]) {
        Option::Some((crate::numb::TY_I24, (i + 3) as nat))
    } else if sp_starts_with(s, i, seq!['f' as u8, '2' as u8, '4' as u8]) {
        Option::Some((crate::numb::TY_F24, (i + 3) as nat))
    } else {
        Option::None
    }
}

/// The first operator token directly at `i`, tried in the fixed order of the
/// operator table, with its code.
pub open spec fn sp_op_tok(s: Seq<u8>, i: nat) -> Option<(u32, nat)> {
    let c = ':' as u8;
    if sp_starts_with(s, i, seq!['+' as u8]) {
        Option::Some((crate::numb::OP_ADD, (i + 1) as nat))
    } else if sp_starts_with(s, i, seq!['-' as u8]) {
        Option::Some((crate::numb::OP_SUB, (i + 1) as nat))
    } else if sp_starts_with(s, i, seq![c, '-' as u8]) {
        Option::Some((crate::numb::FP_SUB, (i + 2) as nat))
    } else if sp_starts_with(s, i, seq!['*' as u8]) {
        Option::Some((crate::numb::OP_MUL, (i + 1) as nat))
    } else if sp_starts_with(s, i, seq!['/' as u8]) {
        Option::Some((crate::numb::OP_DIV, (i + 1) as nat))
    } else if sp_starts_with(s, i, seq![c, '/' as u8]) {
        Option::Some((crate::numb::FP_DIV, (i + 2) as nat))
    } else if sp_starts_with(s, i, seq!['%' as u8]) {
        Option::Some((crate::numb::OP_REM, (i + 1) as nat))
    } else if sp_starts_with(s, i, seq![c, '%' as u8]) {
        Option::Some((crate::numb::FP_REM, (i + 2) as nat))
    } else if sp_starts_with(s, i, seq!['=' as u8]) {
        Option::Some((crate::numb::OP_EQ, (i + 1) as nat))
    } else if sp_starts_with(s, i, seq!['!' as u8]) {
        Option::Some((crate::numb::OP_NEQ, (i + 1) as nat))
    } else if sp_starts_with(s, i, seq!['<' as u8, '<' as u8]) {
        Option::Some((crate::numb::OP_SHL, (i + 2) as nat))
    } else if sp_starts_with(s, i, seq![c, '<' as u8, '<' as u8]) {
        Option::Some((crate::numb::FP_SHL, (i + 3) as nat))
    } else if sp_starts_with(s, i, seq!['>' as u8, '>' as u8]) {
        Option::Some((crate::numb::OP_SHR, (i + 2) as nat))
    } else if sp_starts_with(s, i, seq![c, '>' as u8, '>' as u8]) {
        Option::Some((crate::numb::FP_SHR, (i + 3) as nat))
    } else if sp_starts_with(s, i, seq!['<' as u8]) {
        Option::Some((crate::numb::OP_LT, (i + 1) as nat))
    } else if sp_starts_with(s, i, seq!['>' as u8]) {
        Option::Some((crate::numb::OP_GT, (i + 1) as nat))
    } else if sp_starts_with(s, i, seq!['&' as u8]) {
        Option::Some((crate::numb::OP_AND, (i + 1) as nat))
    } else if sp_starts_with(s, i, seq!['|' as u8]) {
        Option::Some((crate::numb::OP_OR, (i + 1) as nat))
    } else if sp_starts_with(s, i, seq!['^' as u8]) {
        Option::Some((crate::numb::OP_XOR, (i + 1) as nat))
    } else {
        Option::None
    }
}

/// A bracketed symbol at `i`: a terminal cast, or an operator optionally
/// partially applied to a literal, closed by `]`.
pub open spec fn sp_numb_sym(s: Seq<u8>, i: nat) -> Option<(u32, nat)> {
    match sp_consume(s, i, seq!['[' as u8]) {
        Option::None => Option::None,
        Option::Some(j) => match sp_cast_tok(s, j) {
            Option::Some((ty, j2)) => match sp_consume(s, j2, seq![']' as u8]) {
                Option::None => Option::None,
                Option::Some(j3) => Option::Some((crate::numb::sym_numb(ty), j3)),
            },
            Option::None => match sp_op_tok(s, j) {
                Option::None => Option::None,
                Option::Some((op, j2)) => {
                    let j3 = sp_trivia(s, j2);
                    if j3 < s.len() && s[j3 as int] != ']' as u8 {
                        match sp_numb_lit(s, j3) {
                            Option::None => Option::None,
                            Option::Some((lw, j4)) => match sp_consume(s, j4, seq![']' as u8]) {
                                Option::None => Option::None,
                                Option::Some(j5) => Option::Some(
                                    (
                                        crate::numb::partial_numb(crate::numb::sym_numb(op), lw),
                                        j5,
                                    ),
                                ),
                            },
                        }
                    } else {
                        match sp_consume(s, j3, seq![']' as u8]) {
                            Option::None => Option::None,
                            Option::Some(j5) => Option::Some((crate::numb::sym_numb(op), j5)),
                        }
                    }
                },
            },
        },
    }
}

/// A number at `i`: a bracketed symbol when `[` follows the trivia, else a
/// literal.
pub open spec fn sp_numb(s: Seq<u8>, i: nat) -> Option<(u32, nat)> {
    let j = sp_trivia(s, i);
    if j < s.len() && s[j as int] == '[' as u8 {
        sp_numb_sym(s, j)
    } else {
        sp_numb_lit(s, j)
    }
}

/// The ghost mirror of a tree: names as byte sequences.
pub enum STree {
    Var { nam: Seq<u8> },
    Ref { nam: Seq<u8> },
    Era,
    Num { val: u32 },
    Con { fst: Box<STree>, snd: Box<STree> },
    Dup { fst: Box<STree>, snd: Box<STree> },
    Opr { fst: Box<STree>, snd: Box<STree> },
    Swi { fst: Box<STree>, snd: Box<STree> },
}

/// The ghost mirror of a net.
pub struct SNet {
    pub root: STree,
    pub rbag: Seq<(bool, STree, STree)>,
}

pub open spec fn tree_view(t: crate::ast::Tree) -> STree
    decreases t,
{
    match t {
        crate::ast::Tree::Var { nam } => STree::Var { nam: nam@ },
        crate::ast::Tree::Ref { nam } => STree::Ref { nam: nam@ },
        crate::ast::Tree::Era => STree::Era,
        crate::ast::Tree::Num { val } => STree::Num { val: val.0 },
        crate::ast::Tree::Con { fst, snd } => STree::Con {
            fst: Box::new(tree_view(*fst)),
            snd: Box::new(tree_view(*snd)),
        },
        crate::ast::Tree::Dup { fst, snd } => STree::Dup {
            fst: Box::new(tree_view(*fst)),
            snd: Box::new(tree_view(*snd)),
        },
        crate::ast::Tree::Opr { fst, snd } => STree::Opr {
            fst: Box::new(tree_view(*fst)),
            snd: Box::new(tree_view(*snd)),
        },
        crate::ast::Tree::Swi { fst, snd } => STree::Swi {
            fst: Box::new(tree_view(*fst)),
            snd: Box::new(tree_view(*snd)),
        },
    }
}

pub open spec fn redex_view(r: crate::ast::Redex) -> (bool, STree, STree) {
    (r.0, tree_view(r.1), tree_view(r.2))
}

pub open spec fn net_view(n: crate::ast::Net) -> SNet {
    SNet { root: tree_view(n.root), rbag: n.rbag@.map(|k: int, r: crate::ast::Redex| redex_view(r)) }
}

pub open spec fn book_view(b: crate::ast::Book) -> Seq<(Seq<u8>, SNet)> {
    b.defs@.map(|k: int, d: (Vec<u8>, crate::ast::Net)| (d.0@, net_view(d.1)))
}

/// A tree at `i`: dispatch on the first byte after the trivia. The index
/// guards can never fire (every step moves forward, within bounds); they make
/// the recursion visibly well founded.
pub open spec fn sp_tree(s: Seq<u8>, i: nat) -> Option<(STree, nat)>
    decreases s.len() - i, 1nat,
    when i <= s.len()
{
    let j = sp_trivia(s, i);
    if !(i <= j && j < s.len()) {
        Option::None
    } else {
        let c = s[j as int];
        if c == '(' as u8 {
            sp_tree_pair(s, i, (j + 1) as nat, 0, ')' as u8)
        } else if c == '{' as u8 {
            sp_tree_pair(s, i, (j + 1) as nat, 1, '}' as u8)
        } else if c == '$' as u8 {
            match sp_consume(s, (j + 1) as nat, seq!['(' as u8]) {
                Option::None => Option::None,
                Option::Some(j2) => sp_tree_pair(s, i, j2, 2, ')' as u8),
            }
        } else if c == '?' as u8 {
            match sp_consume(s, (j + 1) as nat, seq!['(' as u8]) {
                Option::None => Option::None,
                Option::Some(j2) => sp_tree_pair(s, i, j2, 3, ')' as u8),
            }
        } else if c == '@' as u8 {
            match sp_name(s, (j + 1) as nat) {
                Option::None => Option::None,
                Option::Some((nam, j2)) => Option::Some((STree::Ref { nam }, j2)),
            }
        } else if c == '*' as u8 {
            Option::Some((STree::Era, (j + 1) as nat))
        } else if is_dec_digit(c) || c == '+' as u8 || c == '-' as u8 || c == '[' as u8 {
            match sp_numb(s, j) {
                Option::None => Option::None,
                Option::Some((w, j2)) => Option::Some((STree::Num { val: w }, j2)),
            }
        } else {
            match sp_name(s, j) {
                Option::None => Option::None,
                Option::Some((nam, j2)) => Option::Some((STree::Var { nam }, j2)),
            }
        }
    }
}

/// Both children of a binary node, then the closing delimiter. `kind` selects
/// the node: `0` Con, `1` Dup, `2` Opr, `3` Swi.
pub open spec fn sp_tree_pair(s: Seq<u8>, i: nat, fst_at: nat, kind: u32, close: u8) -> Option<
    (STree, nat),
>
    decreases s.len() - i, 0nat,
    when i <= s.len()
{
    if !(i < fst_at && fst_at <= s.len()) {
        Option::None
    } else {
        match sp_tree(s, fst_at) {
            Option::None => Option::None,
            Option::Some((fst, j2)) => {
                if !(i < j2 && j2 <= s.len()) {
                    Option::None
                } else {
                    let j3 = sp_trivia(s, j2);
                    if !(i < j3 && j3 <= s.len()) {
                        Option::None
                    } else {
                        match sp_tree(s, j3) {
                            Option::None => Option::None,
                            Option::Some((snd, j4)) => {
                                if !(j4 <= s.len()) {
                                    Option::None
                                } else {
                                    match sp_consume(s, j4, seq![close]) {
                                        Option::None => Option::None,
                                        Option::Some(j5) => Option::Some(
                                            (mk_pair(kind, fst, snd), j5),
                                        ),
                                    }
                                }
                            },
                        }
                    }
                }
            },
        }
    }
}

pub open spec fn mk_pair(kind: u32, fst: STree, snd: STree) -> STree {
    if kind == 0 {
        STree::Con { fst: Box::new(fst), snd: Box::new(snd) }
    } else if kind == 1 {
        STree::Dup { fst: Box::new(fst), snd: Box::new(snd) }
    } else if kind == 2 {
        STree::Opr { fst: Box::new(fst), snd: Box::new(snd) }
    } else {
        STree::Swi { fst: Box::new(fst), snd: Box::new(snd) }
    }
}

proof fn lemma_consume_bounds(s: Seq<u8>, i: nat, tok: Seq<u8>)
    requires
        i <= s.len(),
    ensures
        sp_consume(s, i, tok).is_some() ==> i <= sp_consume(s, i, tok)->Some_0 <= s.len(),
{
    lemma_trivia_bounds(s, i, false);
}

proof fn lemma_name_bounds(s: Seq<u8>, i: nat)
    requires
        i <= s.len(),
    ensures
        sp_name(s, i).is_some() ==> i <= sp_name(s, i)->Some_0.1 <= s.len(),
{
    lemma_trivia_bounds(s, i, false);
    lemma_scan_name_bounds(s, sp_trivia(s, i));
}

proof fn lemma_numb_lit_bounds(s: Seq<u8>, i: nat)
    requires
        i <= s.len(),
    ensures
        sp_numb_lit(s, i).is_some() ==> i <= sp_numb_lit(s, i)->Some_0.1 <= s.len(),
{
    lemma_scan_lit_bounds(s, i);
}

proof fn lemma_numb_sym_bounds(s: Seq<u8>, i: nat)
    requires
        i <= s.len(),
    ensures
        sp_numb_sym(s, i).is_some() ==> i <= sp_numb_sym(s, i)->Some_0.1 <= s.len(),
{
    lemma_consume_bounds(s, i, seq!['[' as u8]);
    if sp_consume(s, i, seq!['[' as u8]).is_some() {
        let j = sp_consume(s, i, seq!['[' as u8])->Some_0;
        match sp_cast_tok(s, j) {
            Option::Some((ty, j2)) => {
                lemma_consume_bounds(s, j2, seq![']' as u8]);
            },
            Option::None => {
                match sp_op_tok(s, j) {
                    Option::None => {},
                    Option::Some((op, j2)) => {
                        lemma_trivia_bounds(s, j2, false);
                        let j3 = sp_trivia(s, j2);
                        if j3 < s.len() && s[j3 as int] != ']' as u8 {
                            lemma_numb_lit_bounds(s, j3);
                            if sp_numb_lit(s, j3).is_some() {
                                let j4 = sp_numb_lit(s, j3)->Some_0.1;
                                lemma_consume_bounds(s, j4, seq![']' as u8]);
                            }
                        } else {
                            lemma_consume_bounds(s, j3, seq![']' as u8]);
                        }
                    },
                }
            },
        }
    }
}

proof fn lemma_numb_bounds(s: Seq<u8>, i: nat)
    requires
        i <= s.len(),
    ensures
        sp_numb(s, i).is_some() ==> i <= sp_numb(s, i)->Some_0.1 <= s.len(),
{
    lemma_trivia_bounds(s, i, false);
    let j = sp_trivia(s, i);
    if j < s.len() && s[j as int] == '[' as u8 {
        lemma_numb_sym_bounds(s, j);
    } else {
        lemma_numb_lit_bounds(s, j);
    }
}

proof fn lemma_tree_bounds(s: Seq<u8>, i: nat)
    requires
        i <= s.len(),
    ensures
        sp_tree(s, i).is_some() ==> i <= sp_tree(s, i)->Some_0.1 <= s.len(),
    decreases s.len() - i, 1nat,
{
    lemma_trivia_bounds(s, i, false);
    let j = sp_trivia(s, i);
    if i <= j && j < s.len() {
        let c = s[j as int];
        if c == '(' as u8 {
            lemma_tree_pair_bounds(s, i, (j + 1) as nat, 0, ')' as u8);
        } else if c == '{' as u8 {
            lemma_tree_pair_bounds(s, i, (j + 1) as nat, 1, '}' as u8);
        } else if c == '$' as u8 {
            lemma_consume_bounds(s, (j + 1) as nat, seq!['(' as u8]);
            match sp_consume(s, (j + 1) as nat, seq!['(' as u8]) {
                Option::None => {},
                Option::Some(j2) => {
                    lemma_tree_pair_bounds(s, i, j2, 2, ')' as u8);
                },
            }
        } else if c == '?' as u8 {
            lemma_consume_bounds(s, (j + 1) as nat, seq!['(' as u8]);
            match sp_consume(s, (j + 1) as nat, seq!['(' as u8]) {
                Option::None => {},
                Option::Some(j2) => {
                    lemma_tree_pair_bounds(s, i, j2, 3, ')' as u8);
                },
            }
        } else if c == '@' as u8 {
            lemma_name_bounds(s, (j + 1) as nat);
        } else if c == '*' as u8 {
        } else if is_dec_digit(c) || c == '+' as u8 || c == '-' as u8 || c == '[' as u8 {
            lemma_numb_bounds(s, j);
        } else {
            lemma_name_bounds(s, j);
        }
    }
}

proof fn lemma_tree_pair_bounds(s: Seq<u8>, i: nat, fst_at: nat, kind: u32, close: u8)
    requires
        i <= s.len(),
    ensures
        sp_tree_pair(s, i, fst_at, kind, close).is_some() ==> i <= sp_tree_pair(
            s,
            i,
            fst_at,
            kind,
            close,
        )->Some_0.1 <= s.len(),
    decreases s.len() - i, 0nat,
{
    if i < fst_at && fst_at <= s.len() {
        lemma_tree_bounds(s, fst_at);
        match sp_tree(s, fst_at) {
            Option::None => {},
            Option::Some((fst, j2)) => {
                if i < j2 && j2 <= s.len() {
                    lemma_trivia_bounds(s, j2, false);
                    let j3 = sp_trivia(s, j2);
                    if i < j3 && j3 <= s.len() {
                        lemma_tree_bounds(s, j3);
                        match sp_tree(s, j3) {
                            Option::None => {},
                            Option::Some((snd, j4)) => {
                                if j4 <= s.len() {
                                    lemma_consume_bounds(s, j4, seq![close]);
                                }
                            },
                        }
                    }
                }
            },
        }
    }
}

/// The pending interactions after a root: zero or more `& [!] tree ~ tree`,
/// appended to `acc`; the result index lies just past the trailing trivia.
pub open spec fn sp_rbag(s: Seq<u8>, i: nat, acc: Seq<(bool, STree, STree)>) -> Option<
    (Seq<(bool, STree, STree)>, nat),
>
    decreases s.len() - i,
    when i <= s.len()
{
    let j = sp_trivia(s, i);
    if !(i <= j && j <= s.len()) {
        Option::None
    } else if !(j < s.len() && s[j as int] == '&' as u8) {
        Option::Some((acc, j))
    } else {
        let j2 = (j + 1) as nat;
        let par = j2 < s.len() && s[j2 as int] == '!' as u8;
        let j3 = if par {
            (j2 + 1) as nat
        } else {
            j2
        };
        match sp_tree(s, j3) {
            Option::None => Option::None,
            Option::Some((fst, j4)) => {
                if !(j4 <= s.len()) {
                    Option::None
                } else {
                    match sp_consume(s, j4, seq!['~' as u8]) {
                        Option::None => Option::None,
                        Option::Some(j5) => {
                            if !(j5 <= s.len()) {
                                Option::None
                            } else {
                                match sp_tree(s, j5) {
                                    Option::None => Option::None,
                                    Option::Some((snd, j6)) => {
                                        if i < j6 && j6 <= s.len() {
                                            sp_rbag(s, j6, acc.push((par, fst, snd)))
                                        } else {
                                            Option::None
                                        }
                                    },
                                }
                            }
                        },
                    }
                }
            },
        }
    }
}

/// A net: one root tree, then its pending interactions.
pub open spec fn sp_net(s: Seq<u8>, i: nat) -> Option<(SNet, nat)> {
    match sp_tree(s, i) {
        Option::None => Option::None,
        Option::Some((root, j)) => {
            if j <= s.len() {
                match sp_rbag(s, j, Seq::empty()) {
                    Option::None => Option::None,
                    Option::Some((rbag, j2)) => Option::Some((SNet { root, rbag }, j2)),
                }
            } else {
                Option::None
            }
        },
    }
}

/// Insertion into a name-ordered definition list: keeps the order, overwrites
/// an equal name (last write wins).
pub open spec fn sorted_insert(
    defs: Seq<(Seq<u8>, SNet)>,
    nam: Seq<u8>,
    net: SNet,
) -> Seq<(Seq<u8>, SNet)>
    decreases defs.len(),
{
    if defs.len() == 0 {
        seq![(nam, net)]
    } else if crate::ast::lex_lt(nam, defs[0].0) {
        seq![(nam, net)] + defs
    } else if nam == defs[0].0 {
        seq![(nam, net)] + defs.drop_first()
    } else {
        seq![defs[0]] + sorted_insert(defs.drop_first(), nam, net)
    }
}

/// A book: `@name = <net>` until the input is exhausted.
pub open spec fn sp_book_loop(s: Seq<u8>, i: nat, acc: Seq<(Seq<u8>, SNet)>) -> Option<
    Seq<(Seq<u8>, SNet)>,
>
    decreases s.len() - i,
    when i <= s.len()
{
    if i >= s.len() {
        Option::Some(acc)
    } else {
        match sp_consume(s, i, seq!['@' as u8]) {
            Option::None => Option::None,
            Option::Some(j) => {
                if !(j <= s.len()) {
                    Option::None
                } else {
                    match sp_name(s, j) {
                        Option::None => Option::None,
                        Option::Some((nam, j2)) => {
                            if !(j2 <= s.len()) {
                                Option::None
                            } else {
                                match sp_consume(s, j2, seq!['=' as u8]) {
                                    Option::None => Option::None,
                                    Option::Some(j3) => {
                                        if !(j3 <= s.len()) {
                                            Option::None
                                        } else {
                                            match sp_net(s, j3) {
                                                Option::None => Option::None,
                                                Option::Some((net, j4)) => {
                                                    if i < j4 && j4 <= s.len() {
                                                        sp_book_loop(
                                                            s,
                                                            j4,
                                                            sorted_insert(acc, nam, net),
                                                        )
                                                    } else {
                                                        Option::None
                                                    }
                                                },
                                            }
                                        }
                                    },
                                }
                            }
                        },
                    }
                }
            },
        }
    }
}

pub open spec fn sp_book(s: Seq<u8>) -> Option<Seq<(Seq<u8>, SNet)>> {
    sp_book_loop(s, 0, Seq::empty())
}


/// The parser: the whole input and the current byte position.
pub struct CoreParser {
    pub input: Vec<u8>,
    pub index: usize,
}

impl CoreParser {
    pub open spec fn wf(self) -> bool {
        self.index <= self.input@.len()
    }

    pub fn new(input: Vec<u8>) -> (r: CoreParser)
        ensures
            r.input@ == input@,
            r.index == 0,
            r.wf(),
    {
        CoreParser { input, index: 0 }
    }

    /// Skips whitespace and `//` comments.
    pub fn skip_trivia(&mut self)
        requires
            old(self).wf(),
        ensures
            final(self).wf(),
            final(self).input@ == old(self).input@,
            old(self).index <= final(self).index,
            final(self).index == sp_trivia(old(self).input@, old(self).index as nat),
    {
        let ghost s = self.input@;
        let ghost i0 = self.index as nat;
        let mut in_comment: bool = false;
        loop
            invariant
                self.wf(),
                self.input@ == s,
                i0 <= self.index,
                sp_trivia_at(s, i0, false) == sp_trivia_at(s, self.index as nat, in_comment),
            ensures
                self.wf(),
                self.input@ == s,
                i0 <= self.index,
                self.index as nat == sp_trivia_at(s, i0, false),
            decreases s.len() - self.index,
        {
            if self.index >= self.input.len() {
                break;
            }
            let c: u8 = self.input[self.index];
            if in_comment {
                if c == '\n' as u8 {
                    in_comment = false;
                }
                self.index = self.index + 1;
            } else if c == 32 || c == 9 || c == 10 || c == 12 || c == 13 {
                self.index = self.index + 1;
            } else if c == '/' as u8 && self.index + 1 < self.input.len() && self.input[self.index
                + 1] == '/' as u8 {
                in_comment = true;
                self.index = self.index + 2;
            } else {
                break;
            }
        }
    }

    /// Whether the input continues with `tok` at the current position; if so,
    /// consumes it. No trivia is skipped.
    pub fn try_consume(&mut self, tok: &[u8]) -> (r: bool)
        requires
            old(self).wf(),
        ensures
            final(self).wf(),
            final(self).input@ == old(self).input@,
            old(self).index <= final(self).index,
            r == sp_starts_with(old(self).input@, old(self).index as nat, tok@),
            r ==> final(self).index == old(self).index + tok@.len(),
            !r ==> final(self).index == old(self).index,
    {
        if tok.len() > self.input.len() - self.index {
            return false;
        }
        let mut k: usize = 0;
        while k < tok.len()
            invariant
                self.wf(),
                self == old(self),
                k <= tok@.len(),
                self.index + tok@.len() <= self.input@.len(),
                self.input@.len() <= usize::MAX,
                forall|m: int| 0 <= m < k ==> self.input@[self.index + m] == tok@[m],
            decreases tok@.len() - k,
        {
            if self.input[self.index + k] != tok[k] {
                proof {
                    assert(self.input@.subrange(
                        self.index as int,
                        self.index + tok@.len(),
                    )[k as int] != tok@[k as int]);
                }
                return false;
            }
            k = k + 1;
        }
        proof {
            assert(self.input@.subrange(self.index as int, self.index + tok@.len()) =~= tok@);
        }
        self.index = self.index + tok.len();
        true
    }

    /// Builds a syntax error pointing at the current position.
    fn expected(&self, exp: &[u8]) -> (r: ParseError)
        requires
            self.wf(),
        ensures
            r.ini == self.index,
    {
        let mut msg: Vec<u8> = Vec::new();
        crate::lex::push_all(&mut msg, b_expected().as_slice());
        crate::lex::push_all(&mut msg, exp);
        msg.push('\n' as u8);
        let end: usize = if self.index == usize::MAX {
            self.index
        } else {
            self.index + 1
        };
        let ctx = highlight_span(self.index, end, self.input.as_slice());
        crate::lex::push_all(&mut msg, ctx.as_slice());
        ParseError { ini: self.index, end, msg }
    }

    /// Skips trivia, then demands the token `tok`.
    pub fn consume(&mut self, tok: &[u8]) -> (r: Result<(), ParseError>)
        requires
            old(self).wf(),
        ensures
            final(self).wf(),
            final(self).input@ == old(self).input@,
            old(self).index <= final(self).index,
            r.is_ok() == sp_consume(old(self).input@, old(self).index as nat, tok@).is_some(),
            r.is_ok() ==> final(self).index as nat == sp_consume(
                old(self).input@,
                old(self).index as nat,
                tok@,
            )->Some_0,
    {
        self.skip_trivia();
        if self.try_consume(tok) {
            Result::Ok(())
        } else {
            Result::Err(self.expected(tok))
        }
    }

    /// Skips trivia, then takes a non-empty run of name bytes.
    pub fn parse_name(&mut self) -> (r: Result<Vec<u8>, ParseError>)
        requires
            old(self).wf(),
        ensures
            final(self).wf(),
            final(self).input@ == old(self).input@,
            old(self).index <= final(self).index,
            r.is_ok() == sp_name(old(self).input@, old(self).index as nat).is_some(),
            r.is_ok() ==> {
                let (nam, j) = sp_name(old(self).input@, old(self).index as nat)->Some_0;
                r->Ok_0@ == nam && final(self).index as nat == j
            },
    {
        let ghost s = self.input@;
        self.skip_trivia();
        let start: usize = self.index;
        proof {
            lemma_scan_name_bounds(s, start as nat);
        }
        while self.index < self.input.len() && byte_is_name(self.input[self.index])
            invariant
                self.wf(),
                self.input@ == s,
                start <= self.index,
                scan_name(s, start as nat) == scan_name(s, self.index as nat),
                forall|k: int| start <= k < self.index ==> is_name_byte(s[k]),
            decreases s.len() - self.index,
        {
            self.index = self.index + 1;
        }
        proof {
            assert(scan_name(s, self.index as nat) == self.index);
        }
        if self.index == start {
            return Result::Err(self.expected(b_name().as_slice()));
        }
        let mut nam: Vec<u8> = Vec::new();
        let mut k: usize = start;
        while k < self.index
            invariant
                self.wf(),
                self.input@ == s,
                start <= k <= self.index,
                nam@ == s.subrange(start as int, k as int),
            decreases self.index - k,
        {
            nam.push(self.input[k]);
            proof {
                assert(nam@ =~= s.subrange(start as int, k + 1));
            }
            k = k + 1;
        }
        Result::Ok(nam)
    }

    /// Builds a syntax error for a malformed numeric literal spanning
    /// `ini..self.index`.
    fn lit_error(&self, ini: usize) -> (r: ParseError)
        requires
            self.wf(),
            ini <= self.index,
        ensures
            r.ini == ini,
            r.end == self.index,
    {
        let mut msg: Vec<u8> = Vec::new();
        crate::lex::push_all(&mut msg, b_expected().as_slice());
        msg.push('n' as u8);
        msg.push('u' as u8);
        msg.push('m' as u8);
        msg.push('b' as u8);
        msg.push('e' as u8);
        msg.push('r' as u8);
        msg.push('\n' as u8);
        let ctx = highlight_span(ini, self.index, self.input.as_slice());
        crate::lex::push_all(&mut msg, ctx.as_slice());
        ParseError { ini, end: self.index, msg }
    }

    /// Reads a numeric literal: a float when it holds `.`, `inf` or `NaN`, a
    /// signed 24-bit integer after an explicit sign, else unsigned 24-bit.
    pub fn parse_numb_lit(&mut self) -> (r: Result<Numb, ParseError>)
        requires
            old(self).wf(),
        ensures
            final(self).wf(),
            final(self).input@ == old(self).input@,
            old(self).index <= final(self).index,
            r.is_ok() == sp_numb_lit(old(self).input@, old(self).index as nat).is_some(),
            r.is_ok() ==> {
                let (w, j) = sp_numb_lit(old(self).input@, old(self).index as nat)->Some_0;
                r->Ok_0.0 == w && final(self).index as nat == j
            },
    {
        let ghost s = self.input@;
        let ini: usize = self.index;
        while self.index < self.input.len() && byte_is_lit(self.input[self.index])
            invariant
                self.wf(),
                self.input@ == s,
                ini <= self.index,
                scan_lit(s, ini as nat) == scan_lit(s, self.index as nat),
            decreases s.len() - self.index,
        {
            self.index = self.index + 1;
        }
        proof {
            assert(scan_lit(s, self.index as nat) == self.index);
        }
        let lit = copy_range(self.input.as_slice(), ini, self.index);
        let ghost lw = sp_lit_word(lit@);
        let isf = find_byte(lit.as_slice(), '.' as u8) || find_sub3(
            lit.as_slice(),
            'i' as u8,
            'n' as u8,
            'f' as u8,
        ) || find_sub3(lit.as_slice(), 'N' as u8, 'a' as u8, 'N' as u8);
        if isf {
            let signed = lit.len() > 0 && (lit[0] == '+' as u8 || lit[0] == '-' as u8);
            let neg = lit.len() > 0 && lit[0] == '-' as u8;
            let body = if signed {
                copy_range(lit.as_slice(), 1, lit.len())
            } else {
                copy_range(lit.as_slice(), 0, lit.len())
            };
            proof {
                if !signed {
                    assert(body@ =~= lit@);
                }
            }
            if eq_ci_bytes(body.as_slice(), b_inf().as_slice()) || eq_ci_bytes(
                body.as_slice(),
                b_infinity().as_slice(),
            ) {
                let bits: u32 = if neg {
                    0xFF800000
                } else {
                    0x7F800000
                };
                return Result::Ok(Numb::new_f24_bits(bits));
            }
            if eq_ci_bytes(body.as_slice(), b_nan().as_slice()) {
                let bits: u32 = if neg {
                    0xFFC00000
                } else {
                    0x7FC00000
                };
                return Result::Ok(Numb::new_f24_bits(bits));
            }
            if float_shape(lit.as_slice()) {
                match crate::numb::parse_f32bits(lit.as_slice()) {
                    Option::Some(b) => {
                        return Result::Ok(Numb::new_f24_bits(b));
                    },
                    Option::None => {
                        return Result::Err(self.lit_error(ini));
                    },
                }
            }
            return Result::Err(self.lit_error(ini));
        }
        if lit.len() > 0 && (lit[0] == '+' as u8 || lit[0] == '-' as u8) {
            let digits = copy_range(lit.as_slice(), 1, lit.len());
            match parse_int(digits.as_slice()) {
                Option::None => Result::Err(self.lit_error(ini)),
                Option::Some(v) => {
                    let t: i32 = #[verifier::truncate] (v as i32);
                    let t: i32 = if lit[0] == '-' as u8 {
                        if t == i32::MIN {
                            t
                        } else {
                            -t
                        }
                    } else {
                        t
                    };
                    Result::Ok(Numb::new_i24(t))
                },
            }
        } else {
            match parse_int(lit.as_slice()) {
                Option::None => Result::Err(self.lit_error(ini)),
                Option::Some(v) => Result::Ok(Numb::new_u24(#[verifier::truncate] (v as u32))),
            }
        }
    }

    /// Reads a bracketed symbol: a terminal cast `[u24]`/`[i24]`/`[f24]`, or
    /// an operator token, optionally partially applied to a literal.
    #[verifier::rlimit(60)]
    pub fn parse_numb_sym(&mut self) -> (r: Result<Numb, ParseError>)
        requires
            old(self).wf(),
        ensures
            final(self).wf(),
            final(self).input@ == old(self).input@,
            old(self).index <= final(self).index,
            r.is_ok() == sp_numb_sym(old(self).input@, old(self).index as nat).is_some(),
            r.is_ok() ==> {
                let (w, j) = sp_numb_sym(old(self).input@, old(self).index as nat)->Some_0;
                r->Ok_0.0 == w && final(self).index as nat == j
            },
    {
        let ghost s = self.input@;
        match self.consume(vec1('[' as u8).as_slice()) {
            Result::Err(e) => {
                return Result::Err(e);
            },
            Result::Ok(()) => {},
        }
        let cast: Option<u32> = if self.try_consume(
            vec3('u' as u8, '2' as u8, '4' as u8).as_slice(),
        ) {
            Option::Some(crate::numb::TY_U24)
        } else if self.try_consume(vec3('i' as u8, '2' as u8, '4' as u8).as_slice()) {
            Option::Some(crate::numb::TY_I24)
        } else if self.try_consume(vec3('f' as u8, '2' as u8, '4' as u8).as_slice()) {
            Option::Some(crate::numb::TY_F24)
        } else {
            Option::None
        };
        match cast {
            Option::Some(ty) => {
                match self.consume(vec1(']' as u8).as_slice()) {
                    Result::Err(e) => Result::Err(e),
                    Result::Ok(()) => Result::Ok(Numb::new_sym(ty)),
                }
            },
            Option::None => {
                let c: u8 = ':' as u8;
                let op: Option<u32> = if self.try_consume(vec1('+' as u8).as_slice()) {
                    Option::Some(crate::numb::OP_ADD)
                } else if self.try_consume(vec1('-' as u8).as_slice()) {
                    Option::Some(crate::numb::OP_SUB)
                } else if self.try_consume(vec2(c, '-' as u8).as_slice()) {
                    Option::Some(crate::numb::FP_SUB)
                } else if self.try_consume(vec1('*' as u8).as_slice()) {
                    Option::Some(crate::numb::OP_MUL)
                } else if self.try_consume(vec1('/' as u8).as_slice()) {
                    Option::Some(crate::numb::OP_DIV)
                } else if self.try_consume(vec2(c, '/' as u8).as_slice()) {
                    Option::Some(crate::numb::FP_DIV)
                } else if self.try_consume(vec1('%' as u8).as_slice()) {
                    Option::Some(crate::numb::OP_REM)
                } else if self.try_consume(vec2(c, '%' as u8).as_slice()) {
                    Option::Some(crate::numb::FP_REM)
                } else if self.try_consume(vec1('=' as u8).as_slice()) {
                    Option::Some(crate::numb::OP_EQ)
                } else if self.try_consume(vec1('!' as u8).as_slice()) {
                    Option::Some(crate::numb::OP_NEQ)
                } else if self.try_consume(vec2('<' as u8, '<' as u8).as_slice()) {
                    Option::Some(crate::numb::OP_SHL)
                } else if self.try_consume(vec3(c, '<' as u8, '<' as u8).as_slice()) {
                    Option::Some(crate::numb::FP_SHL)
                } else if self.try_consume(vec2('>' as u8, '>' as u8).as_slice()) {
                    Option::Some(crate::numb::OP_SHR)
                } else if self.try_consume(vec3(c, '>' as u8, '>' as u8).as_slice()) {
                    Option::Some(crate::numb::FP_SHR)
                } else if self.try_consume(vec1('<' as u8).as_slice()) {
                    Option::Some(crate::numb::OP_LT)
                } else if self.try_consume(vec1('>' as u8).as_slice()) {
                    Option::Some(crate::numb::OP_GT)
                } else if self.try_consume(vec1('&' as u8).as_slice()) {
                    Option::Some(crate::numb::OP_AND)
                } else if self.try_consume(vec1('|' as u8).as_slice()) {
                    Option::Some(crate::numb::OP_OR)
                } else if self.try_consume(vec1('^' as u8).as_slice()) {
                    Option::Some(crate::numb::OP_XOR)
                } else {
                    Option::None
                };
                let op: u32 = match op {
                    Option::None => {
                        let mut what: Vec<u8> = Vec::new();
                        what.push('o' as u8);
                        what.push('p' as u8);
                        what.push('e' as u8);
                        what.push('r' as u8);
                        what.push('a' as u8);
                        what.push('t' as u8);
                        what.push('o' as u8);
                        what.push('r' as u8);
                        return Result::Err(self.expected(what.as_slice()));
                    },
                    Option::Some(op) => op,
                };
                self.skip_trivia();
                let lit_follows: bool = self.index < self.input.len() && {
                    let ch: u8 = self.input[self.index];
                    ch != ']' as u8
                };
                if lit_follows {
                    let litn = match self.parse_numb_lit() {
                        Result::Err(e) => {
                            return Result::Err(e);
                        },
                        Result::Ok(n) => n,
                    };
                    match self.consume(vec1(']' as u8).as_slice()) {
                        Result::Err(e) => Result::Err(e),
                        Result::Ok(()) => Result::Ok(Numb::partial(Numb::new_sym(op), litn)),
                    }
                } else {
                    match self.consume(vec1(']' as u8).as_slice()) {
                        Result::Err(e) => Result::Err(e),
                        Result::Ok(()) => Result::Ok(Numb::new_sym(op)),
                    }
                }
            },
        }
    }

    /// Reads one tree: dispatch on the next non-trivia byte.
    #[verifier::loop_isolation(false)]
    #[verifier::rlimit(100)]
    pub fn parse_tree(&mut self) -> (r: Result<crate::ast::Tree, ParseError>)
        requires
            old(self).wf(),
        ensures
            final(self).wf(),
            final(self).input@ == old(self).input@,
            old(self).index <= final(self).index,
            r.is_ok() == sp_tree(old(self).input@, old(self).index as nat).is_some(),
            r.is_ok() ==> {
                let (t, j) = sp_tree(old(self).input@, old(self).index as nat)->Some_0;
                tree_view(r->Ok_0) == t && final(self).index as nat == j
            },
        decreases old(self).input@.len() - old(self).index,
    {
        let ghost s = self.input@;
        let ghost i0 = self.index as nat;
        proof {
            lemma_trivia_bounds(s, i0, false);
            lemma_tree_bounds(s, i0);
        }
        self.skip_trivia();
        if self.index >= self.input.len() {
            return Result::Err(self.expected(b_name().as_slice()));
        }
        let ghost j = self.index as nat;
        let c: u8 = self.input[self.index];
        if c == '(' as u8 || c == '{' as u8 || c == '$' as u8 || c == '?' as u8 {
            let close: u8 = if c == '{' as u8 {
                '}' as u8
            } else {
                ')' as u8
            };
            self.index = self.index + 1;
            if c == '$' as u8 || c == '?' as u8 {
                match self.consume(vec1('(' as u8).as_slice()) {
                    Result::Err(e) => {
                        return Result::Err(e);
                    },
                    Result::Ok(()) => {},
                }
            }
            let ghost fst_at = self.index as nat;
            proof {
                lemma_consume_bounds(s, (j + 1) as nat, seq!['(' as u8]);
                lemma_tree_bounds(s, fst_at);
            }
            let fst = match self.parse_tree() {
                Result::Err(e) => {
                    return Result::Err(e);
                },
                Result::Ok(t) => t,
            };
            let ghost j2 = self.index as nat;
            self.skip_trivia();
            let ghost j3 = self.index as nat;
            proof {
                lemma_trivia_bounds(s, j2, false);
                lemma_tree_bounds(s, j3);
            }
            let snd = match self.parse_tree() {
                Result::Err(e) => {
                    return Result::Err(e);
                },
                Result::Ok(t) => t,
            };
            match self.consume(vec1(close).as_slice()) {
                Result::Err(e) => Result::Err(e),
                Result::Ok(()) => {
                    let t = if c == '(' as u8 {
                        crate::ast::Tree::Con { fst: Box::new(fst), snd: Box::new(snd) }
                    } else if c == '{' as u8 {
                        crate::ast::Tree::Dup { fst: Box::new(fst), snd: Box::new(snd) }
                    } else if c == '$' as u8 {
                        crate::ast::Tree::Opr { fst: Box::new(fst), snd: Box::new(snd) }
                    } else {
                        crate::ast::Tree::Swi { fst: Box::new(fst), snd: Box::new(snd) }
                    };
                    Result::Ok(t)
                },
            }
        } else if c == '@' as u8 {
            self.index = self.index + 1;
            match self.parse_name() {
                Result::Err(e) => Result::Err(e),
                Result::Ok(nam) => Result::Ok(crate::ast::Tree::Ref { nam }),
            }
        } else if c == '*' as u8 {
            self.index = self.index + 1;
            Result::Ok(crate::ast::Tree::Era)
        } else if (48 <= c && c <= 57) || c == '+' as u8 || c == '-' as u8 || c == '[' as u8 {
            proof {
                lemma_numb_bounds(s, j);
            }
            match self.parse_numb() {
                Result::Err(e) => Result::Err(e),
                Result::Ok(val) => Result::Ok(crate::ast::Tree::Num { val }),
            }
        } else {
            match self.parse_name() {
                Result::Err(e) => Result::Err(e),
                Result::Ok(nam) => Result::Ok(crate::ast::Tree::Var { nam }),
            }
        }
    }

    /// Reads a net: one root tree, then `& [!] tree ~ tree` interactions.
    #[verifier::rlimit(100)]
    pub fn parse_net(&mut self) -> (r: Result<crate::ast::Net, ParseError>)
        requires
            old(self).wf(),
        ensures
            final(self).wf(),
            final(self).input@ == old(self).input@,
            old(self).index <= final(self).index,
            r.is_ok() == sp_net(old(self).input@, old(self).index as nat).is_some(),
            r.is_ok() ==> {
                let (n, j) = sp_net(old(self).input@, old(self).index as nat)->Some_0;
                net_view(r->Ok_0) == n && final(self).index as nat == j
            },
    {
        let ghost s = self.input@;
        let ghost i0 = self.index as nat;
        let root = match self.parse_tree() {
            Result::Err(e) => {
                return Result::Err(e);
            },
            Result::Ok(t) => t,
        };
        let ghost j_root = self.index as nat;
        let mut rbag: Vec<crate::ast::Redex> = Vec::new();
        proof {
            assert(rbag@.map(|k: int, r: crate::ast::Redex| redex_view(r)) =~= Seq::<
                (bool, STree, STree),
            >::empty());
        }
        loop
            invariant
                self.wf(),
                self.input@ == s,
                s == old(self).input@,
                i0 == old(self).index as nat,
                i0 <= j_root <= self.index,
                sp_tree(s, i0) == Option::Some((tree_view(root), j_root as nat)),
                sp_rbag(s, j_root, Seq::empty()) == sp_rbag(
                    s,
                    self.index as nat,
                    rbag@.map(|k: int, r: crate::ast::Redex| redex_view(r)),
                ),
            ensures
                self.wf(),
                self.input@ == s,
                s == old(self).input@,
                i0 == old(self).index as nat,
                i0 <= self.index,
                sp_tree(s, i0) == Option::Some((tree_view(root), j_root as nat)),
                sp_rbag(s, j_root, Seq::empty()) == Option::Some(
                    (
                        rbag@.map(|k: int, r: crate::ast::Redex| redex_view(r)),
                        self.index as nat,
                    ),
                ),
            decreases s.len() - self.index,
        {
            let ghost i_iter = self.index as nat;
            let ghost acc = rbag@.map(|k: int, r: crate::ast::Redex| redex_view(r));
            proof {
                lemma_trivia_bounds(s, i_iter, false);
                lemma_trivia_idem(s, i_iter);
            }
            self.skip_trivia();
            if !(self.index < self.input.len() && self.input[self.index] == '&' as u8) {
                proof {
                    assert(sp_rbag(s, i_iter, acc) == Option::Some((acc, self.index as nat)));
                    assert(sp_rbag(s, self.index as nat, acc) == Option::Some(
                        (acc, self.index as nat),
                    ));
                }
                break;
            }
            self.index = self.index + 1;
            let par: bool = if self.index < self.input.len() && self.input[self.index]
                == '!' as u8 {
                self.index = self.index + 1;
                true
            } else {
                false
            };
            let ghost j3 = self.index as nat;
            proof {
                lemma_tree_bounds(s, j3);
            }
            let fst = match self.parse_tree() {
                Result::Err(e) => {
                    proof {
                        assert(sp_rbag(s, i_iter, acc).is_none());
                        assert(sp_net(s, i0).is_none());
                    }
                    return Result::Err(e);
                },
                Result::Ok(t) => t,
            };
            let ghost j4 = self.index as nat;
            match self.consume(vec1('~' as u8).as_slice()) {
                Result::Err(e) => {
                    proof {
                        assert(sp_rbag(s, i_iter, acc).is_none());
                        assert(sp_net(s, i0).is_none());
                    }
                    return Result::Err(e);
                },
                Result::Ok(()) => {},
            }
            let ghost j5 = self.index as nat;
            proof {
                lemma_consume_bounds(s, j4, seq!['~' as u8]);
                lemma_tree_bounds(s, j5);
            }
            let snd = match self.parse_tree() {
                Result::Err(e) => {
                    proof {
                        assert(sp_rbag(s, i_iter, acc).is_none());
                        assert(sp_net(s, i0).is_none());
                    }
                    return Result::Err(e);
                },
                Result::Ok(t) => t,
            };
            rbag.push((par, fst, snd));
            proof {
                assert(rbag@.map(|k: int, r: crate::ast::Redex| redex_view(r)) =~= acc.push(
                    redex_view((par, fst, snd)),
                ));
                assert(sp_rbag(s, i_iter, acc) == sp_rbag(
                    s,
                    self.index as nat,
                    acc.push(redex_view((par, fst, snd))),
                ));
            }
        }
        Result::Ok(crate::ast::Net { root, rbag })
    }

    /// Reads a book: `@name = <net>` entries until the input ends; a repeated
    /// name overwrites the earlier entry.
    #[verifier::rlimit(100)]
    pub fn parse_book(&mut self) -> (r: Result<crate::ast::Book, ParseError>)
        requires
            old(self).wf(),
        ensures
            final(self).wf(),
            final(self).input@ == old(self).input@,
            r.is_ok() == sp_book_loop(old(self).input@, old(self).index as nat, Seq::empty())
                .is_some(),
            r.is_ok() ==> book_view(r->Ok_0) == sp_book_loop(
                old(self).input@,
                old(self).index as nat,
                Seq::empty(),
            )->Some_0,
    {
        let ghost s = self.input@;
        let ghost i0 = self.index as nat;
        let mut defs: Vec<(Vec<u8>, crate::ast::Net)> = Vec::new();
        proof {
            assert(defs_view(defs@) =~= Seq::<(Seq<u8>, SNet)>::empty());
        }
        loop
            invariant
                self.wf(),
                self.input@ == s,
                s == old(self).input@,
                i0 == old(self).index as nat,
                i0 <= self.index,
                sp_book_loop(s, i0, Seq::empty()) == sp_book_loop(
                    s,
                    self.index as nat,
                    defs_view(defs@),
                ),
            ensures
                self.wf(),
                self.input@ == s,
                s == old(self).input@,
                i0 == old(self).index as nat,
                sp_book_loop(s, i0, Seq::empty()) == Option::Some(defs_view(defs@)),
            decreases s.len() - self.index,
        {
            let ghost i_iter = self.index as nat;
            let ghost acc = defs_view(defs@);
            if self.index >= self.input.len() {
                break;
            }
            proof {
                lemma_trivia_bounds(s, i_iter, false);
            }
            match self.consume(vec1('@' as u8).as_slice()) {
                Result::Err(e) => {
                    proof {
                        assert(sp_book_loop(s, i_iter, acc).is_none());
                    }
                    return Result::Err(e);
                },
                Result::Ok(()) => {},
            }
            let ghost g_j = self.index as nat;
            proof {
                lemma_name_bounds(s, g_j);
            }
            let nam = match self.parse_name() {
                Result::Err(e) => {
                    proof {
                        assert(sp_book_loop(s, i_iter, acc).is_none());
                    }
                    return Result::Err(e);
                },
                Result::Ok(n) => n,
            };
            let ghost g_j2 = self.index as nat;
            match self.consume(vec1('=' as u8).as_slice()) {
                Result::Err(e) => {
                    proof {
                        assert(sp_book_loop(s, i_iter, acc).is_none());
                    }
                    return Result::Err(e);
                },
                Result::Ok(()) => {},
            }
            let ghost g_j3 = self.index as nat;
            proof {
                lemma_consume_bounds(s, g_j2, seq!['=' as u8]);
            }
            let net = match self.parse_net() {
                Result::Err(e) => {
                    proof {
                        assert(sp_book_loop(s, i_iter, acc).is_none());
                    }
                    return Result::Err(e);
                },
                Result::Ok(n) => n,
            };
            proof {
                assert(sp_book_loop(s, i_iter, acc) == sp_book_loop(
                    s,
                    self.index as nat,
                    sorted_insert(acc, nam@, net_view(net)),
                ));
            }
            book_insert(&mut defs, nam, net);
        }
        Result::Ok(crate::ast::Book { defs })
    }
}

impl crate::ast::Book {
    /// Parses a whole program from source text.
    pub fn parse(code: &str) -> (r: Result<crate::ast::Book, ParseError>)
        ensures
            r.is_ok() == sp_book(code.spec_bytes()).is_some(),
            r.is_ok() ==> book_view(r->Ok_0) == sp_book(code.spec_bytes())->Some_0,
    {
        let bytes = code.as_bytes();
        let owned = copy_range(bytes, 0, bytes.len());
        proof {
            assert(owned@ =~= code.spec_bytes());
        }
        let mut parser = CoreParser::new(owned);
        parser.parse_book()
    }
}

impl CoreParser {
    /// Reads a number: a bracketed symbol when `[` follows, else a literal.
    pub fn parse_numb(&mut self) -> (r: Result<Numb, ParseError>)
        requires
            old(self).wf(),
        ensures
            final(self).wf(),
            final(self).input@ == old(self).input@,
            old(self).index <= final(self).index,
            r.is_ok() == sp_numb(old(self).input@, old(self).index as nat).is_some(),
            r.is_ok() ==> {
                let (w, j) = sp_numb(old(self).input@, old(self).index as nat)->Some_0;
                r->Ok_0.0 == w && final(self).index as nat == j
            },
    {
        self.skip_trivia();
        if self.index < self.input.len() && self.input[self.index] == '[' as u8 {
            self.parse_numb_sym()
        } else {
            self.parse_numb_lit()
        }
    }
}

pub open spec fn defs_view(ds: Seq<(Vec<u8>, crate::ast::Net)>) -> Seq<(Seq<u8>, SNet)> {
    ds.map(|k: int, d: (Vec<u8>, crate::ast::Net)| (d.0@, net_view(d.1)))
}

/// Byte-wise lexicographic strict order.
#[verifier::loop_isolation(false)]
pub fn bytes_lt(a: &[u8], b: &[u8]) -> (r: bool)
    ensures
        r == crate::ast::lex_lt(a@, b@),
{
    let mut k: usize = 0;
    proof {
        assert(a@.subrange(0, a@.len() as int) =~= a@);
        assert(b@.subrange(0, b@.len() as int) =~= b@);
    }
    loop
        invariant
            k <= a@.len(),
            k <= b@.len(),
            crate::ast::lex_lt(a@, b@) == crate::ast::lex_lt(
                a@.subrange(k as int, a@.len() as int),
                b@.subrange(k as int, b@.len() as int),
            ),
            forall|m: int| 0 <= m < k ==> a@[m] == b@[m],
        decreases a@.len() - k,
    {
        let ghost sa = a@.subrange(k as int, a@.len() as int);
        let ghost sb = b@.subrange(k as int, b@.len() as int);
        if k >= b.len() {
            proof {
                assert(sb.len() == 0);
            }
            return false;
        }
        if k >= a.len() {
            proof {
                assert(sa.len() == 0 && sb.len() > 0);
            }
            return true;
        }
        proof {
            assert(sa[0] == a@[k as int] && sb[0] == b@[k as int]);
        }
        if a[k] < b[k] {
            return true;
        }
        if a[k] > b[k] {
            return false;
        }
        proof {
            assert(sa.subrange(1, sa.len() as int) =~= a@.subrange(k + 1, a@.len() as int));
            assert(sb.subrange(1, sb.len() as int) =~= b@.subrange(k + 1, b@.len() as int));
        }
        k = k + 1;
    }
}

pub fn bytes_eq(a: &[u8], b: &[u8]) -> (r: bool)
    ensures
        r == (a@ == b@),
{
    if a.len() != b.len() {
        return false;
    }
    let mut k: usize = 0;
    while k < a.len()
        invariant
            k <= a@.len(),
            a@.len() == b@.len(),
            forall|m: int| 0 <= m < k ==> a@[m] == b@[m],
        decreases a@.len() - k,
    {
        if a[k] != b[k] {
            return false;
        }
        k = k + 1;
    }
    proof {
        assert(a@ =~= b@);
    }
    true
}

/// Where the recursive insertion lands: before `p` everything is smaller, at
/// `p` the list is no longer smaller, so the entry goes there (replacing an
/// equal name).
proof fn lemma_sorted_insert_at(ds: Seq<(Seq<u8>, SNet)>, nam: Seq<u8>, net: SNet, p: int)
    requires
        0 <= p <= ds.len(),
        forall|m: int| 0 <= m < p ==> crate::ast::lex_lt(#[trigger] ds[m].0, nam),
        p < ds.len() ==> !crate::ast::lex_lt(ds[p].0, nam),
    ensures
        sorted_insert(ds, nam, net) == if p < ds.len() && ds[p].0 == nam {
            ds.subrange(0, p) + seq![(nam, net)] + ds.subrange(p + 1, ds.len() as int)
        } else {
            ds.subrange(0, p) + seq![(nam, net)] + ds.subrange(p, ds.len() as int)
        },
    decreases ds.len(),
{
    if ds.len() == 0 {
        assert(sorted_insert(ds, nam, net) =~= ds.subrange(0, 0) + seq![(nam, net)] + ds.subrange(
            0,
            0,
        ));
    } else if p == 0 {
        if crate::ast::lex_lt(nam, ds[0].0) {
            assert(seq![(nam, net)] + ds =~= ds.subrange(0, 0) + seq![(nam, net)] + ds.subrange(
                0,
                ds.len() as int,
            ));
        } else if nam == ds[0].0 {
            assert(seq![(nam, net)] + ds.drop_first() =~= ds.subrange(0, 0) + seq![(nam, net)]
                + ds.subrange(1, ds.len() as int));
        } else {
            lemma_lex_trichotomy(nam, ds[0].0);
            assert(false);
        }
    } else {
        lemma_lex_irrefl(ds[0].0, nam);
        lemma_lex_asym(ds[0].0, nam);
        assert(!crate::ast::lex_lt(nam, ds[0].0) && nam != ds[0].0);
        let tail = ds.drop_first();
        assert(forall|m: int| 0 <= m < p - 1 ==> crate::ast::lex_lt(#[trigger] tail[m].0, nam));
        lemma_sorted_insert_at(tail, nam, net, p - 1);
        if p < ds.len() && ds[p].0 == nam {
            assert(seq![ds[0]] + (tail.subrange(0, p - 1) + seq![(nam, net)] + tail.subrange(
                p,
                tail.len() as int,
            )) =~= ds.subrange(0, p) + seq![(nam, net)] + ds.subrange(p + 1, ds.len() as int));
        } else {
            assert(seq![ds[0]] + (tail.subrange(0, p - 1) + seq![(nam, net)] + tail.subrange(
                p - 1,
                tail.len() as int,
            )) =~= ds.subrange(0, p) + seq![(nam, net)] + ds.subrange(p, ds.len() as int));
        }
    }
}

/// Two names, each not below the other, are equal.
proof fn lemma_lex_trichotomy(a: Seq<u8>, b: Seq<u8>)
    requires
        !crate::ast::lex_lt(a, b),
        !crate::ast::lex_lt(b, a),
    ensures
        a == b,
    decreases a.len(),
{
    if a.len() == 0 || b.len() == 0 {
        assert(a =~= b);
    } else {
        lemma_lex_trichotomy(a.subrange(1, a.len() as int), b.subrange(1, b.len() as int));
        assert(a =~= seq![a[0]] + a.subrange(1, a.len() as int));
        assert(b =~= seq![b[0]] + b.subrange(1, b.len() as int));
    }
}

/// The order is asymmetric.
proof fn lemma_lex_asym(a: Seq<u8>, b: Seq<u8>)
    requires
        crate::ast::lex_lt(a, b),
    ensures
        !crate::ast::lex_lt(b, a),
    decreases a.len(),
{
    if a.len() > 0 && b.len() > 0 && a[0] == b[0] {
        lemma_lex_asym(a.subrange(1, a.len() as int), b.subrange(1, b.len() as int));
    }
}

/// `lex_lt(a, b)` leaves `a != b`.
proof fn lemma_lex_irrefl(a: Seq<u8>, b: Seq<u8>)
    requires
        crate::ast::lex_lt(a, b),
    ensures
        a != b,
    decreases a.len(),
{
    if a.len() > 0 && b.len() > 0 && a[0] == b[0] {
        lemma_lex_irrefl(a.subrange(1, a.len() as int), b.subrange(1, b.len() as int));
        if a == b {
            assert(a.subrange(1, a.len() as int) =~= b.subrange(1, b.len() as int));
        }
    }
}

/// Inserts one definition, keeping the name order and overwriting an equal
/// name.
#[verifier::loop_isolation(false)]
pub fn book_insert(defs: &mut Vec<(Vec<u8>, crate::ast::Net)>, nam: Vec<u8>, net: crate::ast::Net)
    ensures
        defs_view(final(defs)@) == sorted_insert(defs_view(old(defs)@), nam@, net_view(net)),
{
    let ghost ds = defs_view(defs@);
    let mut p: usize = 0;
    while p < defs.len() && bytes_lt(defs[p].0.as_slice(), nam.as_slice())
        invariant
            p <= defs@.len(),
            forall|m: int| 0 <= m < p ==> crate::ast::lex_lt(#[trigger] ds[m].0, nam@),
        decreases defs@.len() - p,
    {
        p = p + 1;
    }
    proof {
        lemma_sorted_insert_at(ds, nam@, net_view(net), p as int);
    }
    if p < defs.len() && bytes_eq(defs[p].0.as_slice(), nam.as_slice()) {
        let old_entry = defs.remove(p);
        defs.insert(p, (nam, net));
        proof {
            assert(defs_view(defs@) =~= ds.subrange(0, p as int) + seq![(nam@, net_view(net))]
                + ds.subrange(p + 1, ds.len() as int));
        }
    } else {
        defs.insert(p, (nam, net));
        proof {
            assert(defs_view(defs@) =~= ds.subrange(0, p as int) + seq![(nam@, net_view(net))]
                + ds.subrange(p as int, ds.len() as int));
        }
    }
}

fn vec1(a: u8) -> (r: Vec<u8>)
    ensures
        r@ == seq![a],
{
    let mut v: Vec<u8> = Vec::new();
    v.push(a);
    proof {
        assert(v@ =~= seq![a]);
    }
    v
}

fn vec2(a: u8, b: u8) -> (r: Vec<u8>)
    ensures
        r@ == seq![a, b],
{
    let mut v: Vec<u8> = Vec::new();
    v.push(a);
    v.push(b);
    proof {
        assert(v@ =~= seq![a, b]);
    }
    v
}

fn vec3(a: u8, b: u8, c: u8) -> (r: Vec<u8>)
    ensures
        r@ == seq![a, b, c],
{
    let mut v: Vec<u8> = Vec::new();
    v.push(a);
    v.push(b);
    v.push(c);
    proof {
        assert(v@ =~= seq![a, b, c]);
    }
    v
}

/// Copies the bytes `a..b` of a slice.
fn copy_range(l: &[u8], a: usize, b: usize) -> (r: Vec<u8>)
    requires
        a <= b <= l@.len(),
    ensures
        r@ == l@.subrange(a as int, b as int),
{
    let mut r: Vec<u8> = Vec::new();
    let mut k: usize = a;
    while k < b
        invariant
            a <= k <= b <= l@.len(),
            r@ == l@.subrange(a as int, k as int),
        decreases b - k,
    {
        r.push(l[k]);
        proof {
            assert(r@ =~= l@.subrange(a as int, k + 1));
        }
        k = k + 1;
    }
    r
}

fn digit_of(c: u8, radix: u32) -> (r: Option<u32>)
    ensures
        r == digit_val(c, radix),
{
    let v: u32 = if 48 <= c && c <= 57 {
        (c - 48) as u32
    } else if 97 <= c && c <= 122 {
        (c - 87) as u32
    } else if 65 <= c && c <= 90 {
        (c - 55) as u32
    } else {
        0xFF
    };
    if v < radix {
        Option::Some(v)
    } else {
        Option::None
    }
}

/// Digits of the given radix (one optional leading `+`), from `start` to the
/// end of the slice, as a 64-bit value.
#[verifier::loop_isolation(false)]
fn parse_radix(l: &[u8], start: usize, radix: u32) -> (r: Option<u64>)
    requires
        start <= l@.len(),
        radix == 2 || radix == 10 || radix == 16,
    ensures
        r == sp_radix_u64(l@.subrange(start as int, l@.len() as int), radix),
{
    let ghost whole = l@.subrange(start as int, l@.len() as int);
    let d0: usize = if start < l.len() && l[start] == '+' as u8 {
        start + 1
    } else {
        start
    };
    let ghost d = l@.subrange(d0 as int, l@.len() as int);
    proof {
        if d0 != start {
            assert(d =~= whole.subrange(1, whole.len() as int));
        }
    }
    if d0 == l.len() {
        return Option::None;
    }
    let mut value: u64 = 0;
    let mut k: usize = d0;
    while k < l.len()
        invariant
            d0 <= k <= l@.len(),
            d == l@.subrange(d0 as int, l@.len() as int),
            radix == 2 || radix == 10 || radix == 16,
            radix_val(l@.subrange(d0 as int, k as int), radix) == Option::Some(value as nat),
        decreases l@.len() - k,
    {
        let ghost pre = l@.subrange(d0 as int, k as int);
        let ghost cur = l@.subrange(d0 as int, k + 1);
        proof {
            assert(cur.drop_last() =~= pre);
            assert(cur.last() == l@[k as int]);
            assert(d[k - d0] == l@[k as int]);
        }
        match digit_of(l[k], radix) {
            Option::None => {
                proof {
                    lemma_radix_val_invalid(d, radix, k - d0);
                }
                return Option::None;
            },
            Option::Some(dv) => {
                let next = match value.checked_mul(radix as u64) {
                    Option::Some(m) => m.checked_add(dv as u64),
                    Option::None => Option::None,
                };
                match next {
                    Option::None => {
                        proof {
                            assert(radix_val(cur, radix) == Option::Some(
                                (value * radix + dv) as nat,
                            ));
                            if radix_val(d, radix).is_some() {
                                lemma_radix_val_mono(d, radix, k + 1 - d0);
                                assert(d.subrange(0, k + 1 - d0) =~= cur);
                                assert(radix_val(d, radix)->Some_0 > u64::MAX);
                            }
                        }
                        return Option::None;
                    },
                    Option::Some(nv) => {
                        value = nv;
                    },
                }
            },
        }
        k = k + 1;
    }
    proof {
        assert(l@.subrange(d0 as int, k as int) =~= d);
    }
    Option::Some(value)
}

/// Reads an integer literal: decimal by default, hexadecimal after `0x`,
/// binary after `0b`; fails on a stray byte or a value over 64 bits.
pub fn parse_int(l: &[u8]) -> (r: Option<u64>)
    ensures
        r == sp_int(l@),
{
    let ghost hx = seq!['0' as u8, 'x' as u8];
    let ghost hb = seq!['0' as u8, 'b' as u8];
    if l.len() >= 2 && l[0] == '0' as u8 && l[1] == 'x' as u8 {
        proof {
            assert(l@.subrange(0, 2) =~= hx);
        }
        parse_radix(l, 2, 16)
    } else if l.len() >= 2 && l[0] == '0' as u8 && l[1] == 'b' as u8 {
        proof {
            if sp_starts_with(l@, 0, hx) {
                assert(l@.subrange(0, 2)[1] == l@[1]);
            }
            assert(l@.subrange(0, 2) =~= hb);
        }
        parse_radix(l, 2, 2)
    } else {
        proof {
            if sp_starts_with(l@, 0, hx) {
                assert(l@.subrange(0, 2)[0] == l@[0] && l@.subrange(0, 2)[1] == l@[1]);
            }
            if sp_starts_with(l@, 0, hb) {
                assert(l@.subrange(0, 2)[0] == l@[0] && l@.subrange(0, 2)[1] == l@[1]);
            }
            assert(l@.subrange(0, l@.len() as int) =~= l@);
        }
        parse_radix(l, 0, 10)
    }
}

fn eq_ci_bytes(a: &[u8], t: &[u8]) -> (r: bool)
    ensures
        r == eq_ci(a@, t@),
{
    if a.len() != t.len() {
        return false;
    }
    let mut k: usize = 0;
    while k < a.len()
        invariant
            k <= a@.len(),
            a@.len() == t@.len(),
            forall|m: int| 0 <= m < k ==> lower_b(a@[m]) == t@[m],
        decreases a@.len() - k,
    {
        let c: u8 = a[k];
        let lo: u8 = if 65 <= c && c <= 90 {
            c + 32
        } else {
            c
        };
        if lo != t[k] {
            return false;
        }
        k = k + 1;
    }
    true
}

fn find_byte(l: &[u8], c: u8) -> (r: bool)
    ensures
        r == has_byte(l@, c),
{
    let mut k: usize = 0;
    while k < l.len()
        invariant
            k <= l@.len(),
            forall|m: int| 0 <= m < k ==> l@[m] != c,
        decreases l@.len() - k,
    {
        if l[k] == c {
            return true;
        }
        k = k + 1;
    }
    false
}

#[verifier::loop_isolation(false)]
fn find_sub3(l: &[u8], a: u8, b: u8, c: u8) -> (r: bool)
    ensures
        r == has_sub(l@, seq![a, b, c]),
{
    let ghost t = seq![a, b, c];
    proof {
        assert(t.len() == 3 && t[0] == a && t[1] == b && t[2] == c);
    }
    if l.len() < 3 {
        return false;
    }
    let mut k: usize = 0;
    while k <= l.len() - 3
        invariant
            k <= l@.len(),
            forall|m: int| 0 <= m < k && m + 3 <= l@.len() ==> #[trigger] l@.subrange(m, m + 3) != t,
        decreases l@.len() - k,
    {
        let ghost sub = l@.subrange(k as int, k + 3);
        proof {
            let k3: int = k + 2;
            assert(sub.len() == 3 && sub[0] == l@[k as int] && sub[1] == l@[k + 1] && sub[2]
                == l@[k3]);
        }
        if l[k] == a && l[k + 1] == b && l[k + 2] == c {
            proof {
                assert(sub =~= t);
            }
            return true;
        }
        proof {
            assert(sub != t);
        }
        k = k + 1;
    }
    false
}

fn scan_digits_exec(l: &[u8], i: usize) -> (j: usize)
    requires
        i <= l@.len(),
    ensures
        j as nat == scan_digits(l@, i as nat),
        i <= j <= l@.len(),
{
    let mut k: usize = i;
    while k < l.len() && 48 <= l[k] && l[k] <= 57
        invariant
            i <= k <= l@.len(),
            scan_digits(l@, i as nat) == scan_digits(l@, k as nat),
        decreases l@.len() - k,
    {
        k = k + 1;
    }
    k
}

/// Whether a literal has the shape of a finite decimal float.
fn float_shape(l: &[u8]) -> (r: bool)
    ensures
        r == float_shape_ok(l@),
{
    let b0: usize = if l.len() > 0 && (l[0] == '+' as u8 || l[0] == '-' as u8) {
        1
    } else {
        0
    };
    if b0 > l.len() {
        return false;
    }
    let d1 = scan_digits_exec(l, b0);
    let dotted = d1 < l.len() && l[d1] == '.' as u8;
    let d2 = if dotted {
        scan_digits_exec(l, d1 + 1)
    } else {
        d1
    };
    let has_mant = d1 > b0 || (dotted && d2 > d1 + 1);
    if !has_mant {
        return false;
    }
    if d2 == l.len() {
        return true;
    }
    if !(l[d2] == 'e' as u8 || l[d2] == 'E' as u8) {
        return false;
    }
    let e0: usize = if d2 + 1 < l.len() && (l[d2 + 1] == '+' as u8 || l[d2 + 1] == '-' as u8) {
        d2 + 2
    } else {
        d2 + 1
    };
    let e1 = scan_digits_exec(l, e0);
    e1 > e0 && e1 == l.len()
}

/// The bytes of `inf`.
fn b_inf() -> (r: Vec<u8>)
    ensures
        r@ == seq!['i' as u8, 'n' as u8, 'f' as u8],
{
    let mut v: Vec<u8> = Vec::new();
    v.push('i' as u8);
    v.push('n' as u8);
    v.push('f' as u8);
    proof {
        assert(v@ =~= seq!['i' as u8, 'n' as u8, 'f' as u8]);
    }
    v
}

/// The bytes of `infinity`.
fn b_infinity() -> (r: Vec<u8>)
    ensures
        r@ == seq![
            'i' as u8,
            'n' as u8,
            'f' as u8,
            'i' as u8,
            'n' as u8,
            'i' as u8,
            't' as u8,
            'y' as u8,
        ],
{
    let mut v: Vec<u8> = Vec::new();
    v.push('i' as u8);
    v.push('n' as u8);
    v.push('f' as u8);
    v.push('i' as u8);
    v.push('n' as u8);
    v.push('i' as u8);
    v.push('t' as u8);
    v.push('y' as u8);
    proof {
        assert(v@ =~= seq![
            'i' as u8,
            'n' as u8,
            'f' as u8,
            'i' as u8,
            'n' as u8,
            'i' as u8,
            't' as u8,
            'y' as u8,
        ]);
    }
    v
}

/// The bytes of `nan`.
fn b_nan() -> (r: Vec<u8>)
    ensures
        r@ == seq!['n' as u8, 'a' as u8, 'n' as u8],
{
    let mut v: Vec<u8> = Vec::new();
    v.push('n' as u8);
    v.push('a' as u8);
    v.push('n' as u8);
    proof {
        assert(v@ =~= seq!['n' as u8, 'a' as u8, 'n' as u8]);
    }
    v
}

/// The bytes of `expected: `.
fn b_expected() -> (r: Vec<u8>)
{
    let mut v: Vec<u8> = Vec::new();
    v.push('e' as u8);
    v.push('x' as u8);
    v.push('p' as u8);
    v.push('e' as u8);
    v.push('c' as u8);
    v.push('t' as u8);
    v.push('e' as u8);
    v.push('d' as u8);
    v.push(':' as u8);
    v.push(' ' as u8);
    v
}

/// The bytes of `name`.
fn b_name() -> (r: Vec<u8>)
{
    let mut v: Vec<u8> = Vec::new();
    v.push('n' as u8);
    v.push('a' as u8);
    v.push('m' as u8);
    v.push('e' as u8);
    v
}

} // verus!
