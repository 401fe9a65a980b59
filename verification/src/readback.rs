//! Reading a tree back from a quiesced graph snapshot, given the compiled
//! definitions for the id-to-name table.

use vstd::prelude::*;

use crate::ast::{Net, Tree};
use crate::graph;
use crate::graph::{Pair, Port, Tag};
use crate::lex::{hex_min_of, u32_hex_min};
use crate::parse::{tree_view, STree};

verus! {

/// A read-only snapshot of the evaluator's memory: the node arena and the
/// variable-binding slots (`None` is unbound).
pub struct GNet {
    pub node: Vec<Pair>,
    pub vars: Vec<Option<Port>>,
}

/// The root of the whole net: variable slot zero.
pub open spec fn root_port() -> Port {
    Port { tag: Tag::Var, val: 0 }
}

/// One step of variable resolution: a bound variable port becomes its
/// binding, anything else stays.
pub open spec fn enter_once(vars: Seq<Option<Port>>, p: Port) -> Port {
    if p.tag == Tag::Var && p.val < vars.len() && vars[p.val as int].is_some() {
        vars[p.val as int]->Some_0
    } else {
        p
    }
}

/// The synthesized name of an unresolved variable: `v` then the id in hex.
pub open spec fn var_name_of(v: u32) -> Seq<u8> {
    seq!['v' as u8] + hex_min_of(v as nat)
}

/// Reads one tree back from a port. Variables resolve to a fixed point (the
/// fuel caps a malformed graph's resolution cycle); an unknown definition id
/// or node index yields nothing.
pub open spec fn sp_rb(
    node: Seq<Pair>,
    vars: Seq<Option<Port>>,
    fids: Seq<Seq<u8>>,
    p: Port,
    fuel: nat,
) -> Option<STree>
    decreases fuel,
{
    if fuel == 0 {
        Option::None
    } else {
        match p.tag {
            Tag::Var => {
                let q = enter_once(vars, p);
                if q != p {
                    sp_rb(node, vars, fids, q, (fuel - 1) as nat)
                } else {
                    Option::Some(STree::Var { nam: var_name_of(p.val) })
                }
            },
            Tag::Ref => {
                if p.val < fids.len() {
                    Option::Some(STree::Ref { nam: fids[p.val as int] })
                } else {
                    Option::None
                }
            },
            Tag::Era => Option::Some(STree::Era),
            Tag::Num => Option::Some(STree::Num { val: p.val }),
            _ => {
                if p.val < node.len() {
                    let pair = node[p.val as int];
                    match sp_rb(node, vars, fids, pair.fst, (fuel - 1) as nat) {
                        Option::None => Option::None,
                        Option::Some(a) => match sp_rb(
                            node,
                            vars,
                            fids,
                            pair.snd,
                            (fuel - 1) as nat,
                        ) {
                            Option::None => Option::None,
                            Option::Some(b) => Option::Some(rb_node(p.tag, a, b)),
                        },
                    }
                } else {
                    Option::None
                }
            },
        }
    }
}

pub open spec fn rb_node(tag: Tag, a: STree, b: STree) -> STree {
    match tag {
        Tag::Dup => STree::Dup { fst: Box::new(a), snd: Box::new(b) },
        Tag::Opr => STree::Opr { fst: Box::new(a), snd: Box::new(b) },
        Tag::Swi => STree::Swi { fst: Box::new(a), snd: Box::new(b) },
        _ => STree::Con { fst: Box::new(a), snd: Box::new(b) },
    }
}

/// The readback fuel for a snapshot: generous for any graph that resolves.
pub open spec fn rb_fuel(node: Seq<Pair>, vars: Seq<Option<Port>>) -> nat {
    if 2 * node.len() + vars.len() + 2 <= u64::MAX {
        2 * node.len() + vars.len() + 2
    } else {
        u64::MAX as nat
    }
}

fn var_name_exec(v: u32) -> (r: Vec<u8>)
    ensures
        r@ == var_name_of(v),
{
    let mut out: Vec<u8> = Vec::new();
    out.push('v' as u8);
    let digits = u32_hex_min(v);
    crate::lex::push_all(&mut out, digits.as_slice());
    proof {
        assert(out@ =~= var_name_of(v));
    }
    out
}

fn readback_at(net: &GNet, port: Port, fids: &Vec<Vec<u8>>, fuel: u64) -> (r: Option<Tree>)
    ensures
        ({
            let outcome = sp_rb(
                net.node@,
                net.vars@,
                crate::compile::names_view(fids@),
                port,
                fuel as nat,
            );
            match outcome {
                Option::Some(t) => r.is_some() && tree_view(r->Some_0) == t,
                Option::None => r.is_none(),
            }
        }),
    decreases fuel,
{
    if fuel == 0 {
        return Option::None;
    }
    match port.tag {
        Tag::Var => {
            let q: Port = if (port.val as usize) < net.vars.len() {
                match net.vars[port.val as usize] {
                    Option::Some(b) => b,
                    Option::None => port,
                }
            } else {
                port
            };
            if !(q.tag == port.tag && q.val == port.val) {
                readback_at(net, q, fids, fuel - 1)
            } else {
                Option::Some(Tree::Var { nam: var_name_exec(port.val) })
            }
        },
        Tag::Ref => {
            if (port.val as usize) < fids.len() {
                let mut nam: Vec<u8> = Vec::new();
                crate::lex::push_all(&mut nam, fids[port.val as usize].as_slice());
                proof {
                    assert(nam@ =~= crate::compile::names_view(fids@)[port.val as int]);
                }
                Option::Some(Tree::Ref { nam })
            } else {
                Option::None
            }
        },
        Tag::Era => Option::Some(Tree::Era),
        Tag::Num => Option::Some(Tree::Num { val: crate::numb::Numb(port.val) }),
        _ => {
            if (port.val as usize) < net.node.len() {
                let pair: Pair = net.node[port.val as usize];
                let a = match readback_at(net, pair.fst, fids, fuel - 1) {
                    Option::None => {
                        return Option::None;
                    },
                    Option::Some(t) => t,
                };
                let b = match readback_at(net, pair.snd, fids, fuel - 1) {
                    Option::None => {
                        return Option::None;
                    },
                    Option::Some(t) => t,
                };
                let t = match port.tag {
                    Tag::Dup => Tree::Dup { fst: Box::new(a), snd: Box::new(b) },
                    Tag::Opr => Tree::Opr { fst: Box::new(a), snd: Box::new(b) },
                    Tag::Swi => Tree::Swi { fst: Box::new(a), snd: Box::new(b) },
                    _ => Tree::Con { fst: Box::new(a), snd: Box::new(b) },
                };
                Option::Some(t)
            } else {
                Option::None
            }
        },
    }
}

impl Tree {
    /// Reads one tree back from a port of the snapshot, resolving variables
    /// through the graph's own binding slots.
    pub fn readback(net: &GNet, port: Port, fids: &Vec<Vec<u8>>) -> (r: Option<Tree>)
        ensures
            ({
                let outcome = sp_rb(
                    net.node@,
                    net.vars@,
                    crate::compile::names_view(fids@),
                    port,
                    rb_fuel(net.node@, net.vars@),
                );
                match outcome {
                    Option::Some(t) => r.is_some() && tree_view(r->Some_0) == t,
                    Option::None => r.is_none(),
                }
            }),
    {
        let n: u64 = net.node.len() as u64;
        let v: u64 = net.vars.len() as u64;
        let fuel: u64 = if v <= u64::MAX - 2 && n <= (u64::MAX - 2 - v) / 2 {
            2 * n + v + 2
        } else {
            u64::MAX
        };
        proof {
            assert(fuel as nat == rb_fuel(net.node@, net.vars@));
        }
        readback_at(net, port, fids, fuel)
    }

    /// The name table: definition ids in order.
    pub fn fid_table(book: &graph::Book) -> (r: Vec<Vec<u8>>)
        ensures
            crate::compile::names_view(r@) == book.defs@.map(|k: int, d: graph::Def| d.name@),
    {
        let mut fids: Vec<Vec<u8>> = Vec::new();
        let mut k: usize = 0;
        while k < book.defs.len()
            invariant
                k <= book.defs@.len(),
                fids@.len() == k,
                forall|m: int|
                    0 <= m < k ==> crate::compile::names_view(fids@)[m] == book.defs@[m].name@,
            decreases book.defs@.len() - k,
        {
            let mut nam: Vec<u8> = Vec::new();
            crate::lex::push_all(&mut nam, book.defs[k].name.as_slice());
            proof {
                assert(nam@ =~= book.defs@[k as int].name@);
            }
            let ghost pre = fids@;
            fids.push(nam);
            proof {
                assert forall|m: int| 0 <= m < k + 1 implies crate::compile::names_view(fids@)[m]
                    == book.defs@[m].name@ by {
                    assert(crate::compile::names_view(fids@)[m] == fids@[m]@);
                    if m < k {
                        assert(fids@[m] == pre[m]);
                        assert(crate::compile::names_view(pre)[m] == pre[m]@);
                    }
                }
            }
            k = k + 1;
        }
        proof {
            assert(crate::compile::names_view(fids@) =~= book.defs@.map(
                |m: int, d: graph::Def| d.name@,
            ));
        }
        fids
    }
}

impl Net {
    /// Reads the whole result back: the tree at the root, with an empty
    /// interaction list (evaluation has consumed all pending interactions).
    pub fn readback(net: &GNet, book: &graph::Book) -> (r: Option<Net>)
        ensures
            ({
                let outcome = sp_rb(
                    net.node@,
                    net.vars@,
                    book.defs@.map(|k: int, d: graph::Def| d.name@),
                    root_port(),
                    rb_fuel(net.node@, net.vars@),
                );
                match outcome {
                    Option::Some(t) => r.is_some() && tree_view(r->Some_0.root) == t && r
                        ->Some_0.rbag@.len() == 0,
                    Option::None => r.is_none(),
                }
            }),
    {
        let fids = Tree::fid_table(book);
        match Tree::readback(net, Port { tag: Tag::Var, val: 0 }, &fids) {
            Option::None => Option::None,
            Option::Some(root) => Option::Some(Net { root, rbag: Vec::new() }),
        }
    }
}

} // verus!
