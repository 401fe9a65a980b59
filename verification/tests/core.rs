//! End-to-end checks of the parser, stringifier, compiler and readback.

use hvm_ast::ast::{Book, Net, Tree};
use hvm_ast::compile::CompileError;
use hvm_ast::graph::{Pair, Port, Tag};
use hvm_ast::numb::Numb;
use hvm_ast::parse::CoreParser;
use hvm_ast::readback::GNet;

fn parse_ok(code: &str) -> Book {
    Book::parse(code).expect("parse should succeed")
}

fn show(b: &Book) -> String {
    String::from_utf8(b.show()).unwrap()
}

fn numb_of(lit: &str) -> Numb {
    let mut p = CoreParser::new(lit.as_bytes().to_vec());
    p.parse_numb().expect("numeric literal should parse")
}

fn numb_show(n: &Numb) -> String {
    String::from_utf8(n.show()).unwrap()
}

#[test]
fn parses_simple_book() {
    let book = parse_ok("@main = (x x)");
    assert_eq!(book.defs.len(), 1);
    assert_eq!(book.defs[0].0, b"main".to_vec());
    let net = &book.defs[0].1;
    assert!(net.rbag.is_empty());
    match &net.root {
        Tree::Con { fst, snd } => {
            assert_eq!(**fst, Tree::Var { nam: b"x".to_vec() });
            assert_eq!(**snd, Tree::Var { nam: b"x".to_vec() });
        }
        other => panic!("expected Con, got {:?}", other),
    }
}

#[test]
fn compiles_identity_to_one_node() {
    let book = parse_ok("@main = (x x)");
    let gbook = book.build().expect("build should succeed");
    assert_eq!(gbook.defs.len(), 1);
    let def = &gbook.defs[0];
    assert_eq!(def.name, b"main".to_vec());
    assert_eq!(def.node.len(), 1);
    assert_eq!(def.node[0].fst, Port { tag: Tag::Var, val: 0 });
    assert_eq!(def.node[0].snd, Port { tag: Tag::Var, val: 0 });
    assert_eq!(def.vars, 1);
    assert_eq!(def.root, Port { tag: Tag::Con, val: 0 });
    assert!(def.safe);
    assert!(def.rbag.is_empty());
}

#[test]
fn id_assignment_main_first() {
    // The book keeps its definitions ordered by name (bar, foo, main);
    // `main` always gets id 0 and the others follow in that order.
    let book = parse_ok("@main = * @foo = * @bar = *");
    let gbook = book.build().unwrap();
    let names: Vec<&[u8]> = gbook.defs.iter().map(|d| d.name.as_slice()).collect();
    assert_eq!(names, vec![&b"main"[..], &b"bar"[..], &b"foo"[..]]);
}

#[test]
fn missing_main_fails() {
    let book = parse_ok("@foo = *");
    match book.build() {
        Err(CompileError::MissingEntryPoint) => {}
        other => panic!("expected MissingEntryPoint, got {:?}", other),
    }
}

#[test]
fn unbound_reference_fails() {
    let book = parse_ok("@main = @undefined");
    match book.build() {
        Err(CompileError::UnboundReference(n)) => assert_eq!(n, b"undefined".to_vec()),
        other => panic!("expected UnboundReference, got {:?}", other),
    }
}

#[test]
fn duplicator_clears_safety() {
    let unsafe_book = parse_ok("@main = {a a}");
    assert!(!unsafe_book.build().unwrap().defs[0].safe);
    let safe_book = parse_ok("@main = (a a)");
    assert!(safe_book.build().unwrap().defs[0].safe);
    let nested = parse_ok("@main = ($(x {a a}) x)");
    assert!(!nested.build().unwrap().defs[0].safe);
}

#[test]
fn book_round_trips_through_show() {
    let samples = [
        "@main = (x x)",
        "@main = {a (b $(a ?(b *)))}",
        "@main = (x x) & (a a) ~ * &!(b b) ~ @main",
        "@bar = * @foo = @bar @main = (@foo *)",
        "@main = (123 (+7 (-9 ([u24] ([+] ([*2] *)))))) ",
    ];
    for code in samples {
        let book = Book::parse(code).unwrap();
        let text = show(&book);
        let again = Book::parse(&text).unwrap();
        assert_eq!(book, again, "round trip of {:?} via {:?}", code, text);
        assert_eq!(text, show(&again));
    }
}

#[test]
fn trivia_and_comments_are_skipped() {
    let book = parse_ok("// a program\n@main = ( x // inner comment\n x )\n");
    assert_eq!(show(&book), "@main = (x x)\n");
}

#[test]
fn repeated_name_overwrites() {
    let book = parse_ok("@main = * @main = (x x)");
    assert_eq!(book.defs.len(), 1);
    assert_eq!(show(&book), "@main = (x x)\n");
}

#[test]
fn syntax_errors_are_reported() {
    assert!(Book::parse("@main = (x").is_err());
    assert!(Book::parse("@main = ?(x)q)").is_err());
    assert!(Book::parse("main = *").is_err());
    assert!(Book::parse("   ").is_err());
    assert!(Book::parse("@main = 12wz").is_err());
    assert!(Book::parse("@main = [q]").is_err());
}

#[test]
fn numeric_literals_round_trip() {
    for lit in ["0", "1", "123", "16777215", "+1", "-1", "+8388607", "-8388608"] {
        let n = numb_of(lit);
        assert_eq!(numb_show(&n), lit, "literal {:?}", lit);
    }
    // hex and binary parse to plain decimal renderings
    assert_eq!(numb_show(&numb_of("0xFF")), "255");
    assert_eq!(numb_show(&numb_of("0b101")), "5");
}

#[test]
fn numeric_exactness_24_bit() {
    // decode(encode(v)) == v across the representable ranges
    for v in [0u32, 1, 2, 0x7F, 0xFFFF, 0xFFFFFF] {
        assert_eq!(Numb::new_u24(v).get_u24(), v);
    }
    for v in [-0x800000i32, -1, 0, 1, 0x7FFFFF] {
        assert_eq!(Numb::new_i24(v).get_i24(), v);
    }
    // every representable f24 pattern has clear low bits; decode is exact
    for b in [0x00000000u32, 0x3FC00000, 0x7F800000, 0xFF800000, 0x40490F00] {
        assert_eq!(Numb::new_f24_bits(b).get_f24_bits(), b);
    }
}

#[test]
fn float_specials_round_trip_distinctly() {
    let pos = numb_of("+inf");
    let neg = numb_of("-inf");
    assert_ne!(pos, neg);
    assert_eq!(numb_show(&pos), "+inf");
    assert_eq!(numb_show(&neg), "-inf");
    let nan = numb_of("+NaN");
    assert_eq!(numb_show(&nan), "+NaN");
    assert_eq!(numb_show(&numb_of("-NaN")), "+NaN");
}

#[test]
fn finite_floats_parse_and_show() {
    let half = numb_of("0.5");
    assert_eq!(numb_show(&half), "0.5");
    let n = numb_of("1.5");
    assert_eq!(numb_show(&n), "1.5");
    // showing then reparsing gives the same packed value
    let again = numb_of(&numb_show(&n));
    assert_eq!(n, again);
    // a float that rounds: readback must agree with the stored bits
    let pi = numb_of("3.14159");
    let again = numb_of(&numb_show(&pi));
    assert_eq!(pi, again);
}

#[test]
fn partial_application_is_distinct() {
    let bare = numb_of("[*]");
    let applied = numb_of("[*2]");
    assert_ne!(bare, applied);
    assert_eq!(numb_show(&bare), "[*]");
    // a partial application renders generically and reparses to itself
    let text = numb_show(&applied);
    assert_eq!(text, "[*0x0000002]");
    assert_eq!(numb_of(&text), applied);
}

#[test]
fn operator_symbols_round_trip() {
    for tok in [
        "[u24]", "[i24]", "[f24]", "[+]", "[-]", "[:-]", "[*]", "[/]", "[:/]", "[%]", "[:%]",
        "[=]", "[!]", "[<<]", "[:<<]", "[>>]", "[:>>]", "[<]", "[>]", "[&]", "[|]", "[^]",
    ] {
        let n = numb_of(tok);
        assert_eq!(numb_show(&n), tok, "token {:?}", tok);
    }
}

#[test]
fn compile_then_readback_restores_structure() {
    // an unreduced net: compiling and reading straight back yields the same
    // tree up to consistent variable renaming
    let book = parse_ok("@main = (x ($(y {x *}) ?(y 7)))");
    let gbook = book.build().unwrap();
    let def = &gbook.defs[0];
    let net = GNet {
        node: def.node.clone(),
        vars: vec![None; def.vars as usize],
    };
    let fids = Tree::fid_table(&gbook);
    let tree = Tree::readback(&net, def.root, &fids).expect("readback should succeed");
    let text = String::from_utf8(tree.show()).unwrap();
    assert_eq!(text, "(v0 ($(v1 {v0 *}) ?(v1 7)))");
}

#[test]
fn readback_resolves_variable_bindings() {
    // a snapshot whose root variable is bound through a chain ending at a number
    let net = GNet {
        node: vec![],
        vars: vec![
            Some(Port { tag: Tag::Var, val: 1 }),
            Some(Port { tag: Tag::Num, val: Numb::new_u24(42).0 }),
        ],
    };
    let book = hvm_ast::graph::Book { defs: vec![] };
    let result = Net::readback(&net, &book).expect("readback should succeed");
    assert_eq!(String::from_utf8(result.show()).unwrap(), "42");
    assert!(result.rbag.is_empty());
}

#[test]
fn readback_fails_on_unknown_ref() {
    let net = GNet {
        node: vec![],
        vars: vec![Some(Port { tag: Tag::Ref, val: 9 })],
    };
    let book = hvm_ast::graph::Book { defs: vec![] };
    assert!(Net::readback(&net, &book).is_none());
}

#[test]
fn readback_survives_resolution_cycle() {
    // a malformed graph with a variable cycle: the cap answers "no result"
    // instead of looping forever
    let net = GNet {
        node: vec![],
        vars: vec![
            Some(Port { tag: Tag::Var, val: 1 }),
            Some(Port { tag: Tag::Var, val: 0 }),
        ],
    };
    let book = hvm_ast::graph::Book { defs: vec![] };
    assert!(Net::readback(&net, &book).is_none());
}

#[test]
fn net_show_renders_redexes() {
    let book = parse_ok("@main = * & (a a) ~ * &!x ~ x");
    assert_eq!(show(&book), "@main = * & (a a) ~ * &!x ~ x\n");
    let net = &book.defs[0].1;
    assert_eq!(net.rbag.len(), 2);
    assert!(!net.rbag[0].0);
    assert!(net.rbag[1].0);
}

#[test]
fn parse_int_reads_all_radixes() {
    assert_eq!(hvm_ast::parse::parse_int(b"123"), Some(123));
    assert_eq!(hvm_ast::parse::parse_int(b"+123"), Some(123));
    assert_eq!(hvm_ast::parse::parse_int(b"0x10"), Some(16));
    assert_eq!(hvm_ast::parse::parse_int(b"0b110"), Some(6));
    assert_eq!(hvm_ast::parse::parse_int(b""), None);
    assert_eq!(hvm_ast::parse::parse_int(b"12a"), None);
    assert_eq!(hvm_ast::parse::parse_int(b"18446744073709551616"), None);
    assert_eq!(hvm_ast::parse::parse_int(b"18446744073709551615"), Some(u64::MAX));
}

#[test]
fn generic_numeric_payload_renders_in_hex() {
    // a raw packed value with an operator tag renders generically
    let n = Numb((0xABCDE << 5) | 0x04);
    assert_eq!(numb_show(&n), "[+0x00ABCDE]");
    assert_eq!(numb_of("[+0x00ABCDE]"), n);
}

#[test]
fn evaluated_snapshot_reads_back() {
    // the shape a quiesced evaluator leaves: the root bound to a node tree
    let pair = Pair {
        fst: Port { tag: Tag::Num, val: Numb::new_u24(1).0 },
        snd: Port { tag: Tag::Era, val: 0 },
    };
    let net = GNet {
        node: vec![pair],
        vars: vec![Some(Port { tag: Tag::Con, val: 0 })],
    };
    let book = hvm_ast::graph::Book { defs: vec![] };
    let result = Net::readback(&net, &book).unwrap();
    assert_eq!(String::from_utf8(result.show()).unwrap(), "(1 *)");
}
