//! The evaluator-side graph representation that compilation produces and
//! readback consumes: tagged ports, node pairs, and definitions.

use vstd::prelude::*;

verus! {

/// A port tag: variables, references, erasers, numbers, and the four binary
/// node kinds.
#[derive(Clone, Copy, PartialEq, Eq, Structural, Debug, Hash)]
pub enum Tag {
    Var,
    Ref,
    Era,
    Num,
    Con,
    Dup,
    Opr,
    Swi,
}

/// A tagged reference into the graph: a node index, a variable id, a
/// definition id, or a packed number, depending on the tag.
#[derive(Clone, Copy, PartialEq, Eq, Structural, Debug, Hash)]
pub struct Port {
    pub tag: Tag,
    pub val: u32,
}

/// One two-slot node: the ports of its two children.
#[derive(Clone, Copy, PartialEq, Eq, Structural, Debug, Hash)]
pub struct Pair {
    pub fst: Port,
    pub snd: Port,
}

/// A pending interaction of a definition, with its parallel-eligibility flag.
#[derive(Clone, Copy, PartialEq, Eq, Structural, Debug, Hash)]
pub struct RedexPair {
    pub par: bool,
    pub fst: Port,
    pub snd: Port,
}

/// One compiled definition: root port, pending interactions, flat node array,
/// variable count, and the safety flag (no duplicator nodes).
#[derive(PartialEq, Eq, Debug)]
pub struct Def {
    pub name: Vec<u8>,
    pub safe: bool,
    pub root: Port,
    pub rbag: Vec<RedexPair>,
    pub node: Vec<Pair>,
    pub vars: u32,
}

/// A compiled program: definitions addressed by id.
#[derive(PartialEq, Eq, Debug)]
pub struct Book {
    pub defs: Vec<Def>,
}

/// The ghost mirror of a compiled definition.
pub struct SDef {
    pub name: Seq<u8>,
    pub safe: bool,
    pub root: Port,
    pub rbag: Seq<RedexPair>,
    pub node: Seq<Pair>,
    pub vars: nat,
}

pub open spec fn def_view(d: Def) -> SDef {
    SDef {
        name: d.name@,
        safe: d.safe,
        root: d.root,
        rbag: d.rbag@,
        node: d.node@,
        vars: d.vars as nat,
    }
}

pub open spec fn book_defs_view(b: Book) -> Seq<SDef> {
    b.defs@.map(|k: int, d: Def| def_view(d))
}

} // verus!
