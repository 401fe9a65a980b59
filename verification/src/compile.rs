//! Compiling the syntax tree into the graph representation: id assignment,
//! node allocation, variable numbering, and the safety flag.

use vstd::prelude::*;

use crate::ast::{Book, Net, Tree};
use crate::graph;
use crate::graph::{Pair, Port, RedexPair, SDef, Tag};
use crate::parse::{defs_view, net_view, tree_view, SNet, STree};

verus! {

/// A compile-time failure: no `main`, or a reference to an unknown name.
#[derive(PartialEq, Eq, Debug)]
pub enum CompileError {
    MissingEntryPoint,
    UnboundReference(Vec<u8>),
}

/// The ghost mirror of a compile-time failure.
pub enum SErr {
    Missing,
    Unbound(Seq<u8>),
}

pub open spec fn err_view(e: CompileError) -> SErr {
    match e {
        CompileError::MissingEntryPoint => SErr::Missing,
        CompileError::UnboundReference(n) => SErr::Unbound(n@),
    }
}

/// The in-progress state of one definition's compilation: the node array, the
/// variable names in first-occurrence order (the position is the id), and the
/// safety flag.
pub struct BSt {
    pub node: Seq<Pair>,
    pub vars: Seq<Seq<u8>>,
    pub safe: bool,
}

/// The position of `nam` in `names`, if present.
pub open spec fn find_name(names: Seq<Seq<u8>>, nam: Seq<u8>) -> Option<nat>
    decreases names.len(),
{
    if names.len() == 0 {
        Option::None
    } else if names[0] == nam {
        Option::Some(0nat)
    } else {
        match find_name(names.drop_first(), nam) {
            Option::None => Option::None,
            Option::Some(k) => Option::Some(k + 1),
        }
    }
}

pub open spec fn zero_pair() -> Pair {
    Pair { fst: Port { tag: Tag::Var, val: 0 }, snd: Port { tag: Tag::Var, val: 0 } }
}

/// Compiles one tree: leaves become ports directly; each binary node reserves
/// the next slot, compiles both children, then fills the slot. A duplicator
/// clears the safety flag; an unknown reference fails with its name.
pub open spec fn sb_tree(t: STree, fids: Seq<Seq<u8>>, st: BSt) -> Result<(Port, BSt), Seq<u8>>
    decreases t,
{
    match t {
        STree::Var { nam } => match find_name(st.vars, nam) {
            Option::Some(k) => Result::Ok((Port { tag: Tag::Var, val: k as u32 }, st)),
            Option::None => Result::Ok(
                (
                    Port { tag: Tag::Var, val: st.vars.len() as u32 },
                    BSt { vars: st.vars.push(nam), ..st },
                ),
            ),
        },
        STree::Ref { nam } => match find_name(fids, nam) {
            Option::None => Result::Err(nam),
            Option::Some(f) => Result::Ok((Port { tag: Tag::Ref, val: f as u32 }, st)),
        },
        STree::Era => Result::Ok((Port { tag: Tag::Era, val: 0 }, st)),
        STree::Num { val } => Result::Ok((Port { tag: Tag::Num, val }, st)),
        STree::Con { fst, snd } => {
            let idx = st.node.len();
            let st0 = BSt { node: st.node.push(zero_pair()), ..st };
            match sb_tree(*fst, fids, st0) {
                Result::Err(n) => Result::Err(n),
                Result::Ok((p1, st1)) => match sb_tree(*snd, fids, st1) {
                    Result::Err(n) => Result::Err(n),
                    Result::Ok((p2, st2)) => Result::Ok(
                        (
                            Port { tag: Tag::Con, val: idx as u32 },
                            BSt {
                                node: st2.node.update(idx as int, Pair { fst: p1, snd: p2 }),
                                ..st2
                            },
                        ),
                    ),
                },
            }
        },
        STree::Dup { fst, snd } => {
            let stq = BSt { safe: false, ..st };
            let idx = stq.node.len();
            let st0 = BSt { node: stq.node.push(zero_pair()), ..stq };
            match sb_tree(*fst, fids, st0) {
                Result::Err(n) => Result::Err(n),
                Result::Ok((p1, st1)) => match sb_tree(*snd, fids, st1) {
                    Result::Err(n) => Result::Err(n),
                    Result::Ok((p2, st2)) => Result::Ok(
                        (
                            Port { tag: Tag::Dup, val: idx as u32 },
                            BSt {
                                node: st2.node.update(idx as int, Pair { fst: p1, snd: p2 }),
                                ..st2
                            },
                        ),
                    ),
                },
            }
        },
        STree::Opr { fst, snd } => {
            let idx = st.node.len();
            let st0 = BSt { node: st.node.push(zero_pair()), ..st };
            match sb_tree(*fst, fids, st0) {
                Result::Err(n) => Result::Err(n),
                Result::Ok((p1, st1)) => match sb_tree(*snd, fids, st1) {
                    Result::Err(n) => Result::Err(n),
                    Result::Ok((p2, st2)) => Result::Ok(
                        (
                            Port { tag: Tag::Opr, val: idx as u32 },
                            BSt {
                                node: st2.node.update(idx as int, Pair { fst: p1, snd: p2 }),
                                ..st2
                            },
                        ),
                    ),
                },
            }
        },
        STree::Swi { fst, snd } => {
            let idx = st.node.len();
            let st0 = BSt { node: st.node.push(zero_pair()), ..st };
            match sb_tree(*fst, fids, st0) {
                Result::Err(n) => Result::Err(n),
                Result::Ok((p1, st1)) => match sb_tree(*snd, fids, st1) {
                    Result::Err(n) => Result::Err(n),
                    Result::Ok((p2, st2)) => Result::Ok(
                        (
                            Port { tag: Tag::Swi, val: idx as u32 },
                            BSt {
                                node: st2.node.update(idx as int, Pair { fst: p1, snd: p2 }),
                                ..st2
                            },
                        ),
                    ),
                },
            }
        },
    }
}

/// Compiles the pending interactions in order.
pub open spec fn sb_redexes(
    rs: Seq<(bool, STree, STree)>,
    fids: Seq<Seq<u8>>,
    st: BSt,
    acc: Seq<RedexPair>,
) -> Result<(Seq<RedexPair>, BSt), Seq<u8>>
    decreases rs.len(),
{
    if rs.len() == 0 {
        Result::Ok((acc, st))
    } else {
        match sb_tree(rs[0].1, fids, st) {
            Result::Err(n) => Result::Err(n),
            Result::Ok((p1, st1)) => match sb_tree(rs[0].2, fids, st1) {
                Result::Err(n) => Result::Err(n),
                Result::Ok((p2, st2)) => sb_redexes(
                    rs.drop_first(),
                    fids,
                    st2,
                    acc.push(RedexPair { par: rs[0].0, fst: p1, snd: p2 }),
                ),
            },
        }
    }
}

/// Compiles one net: the root tree, then each pending interaction.
pub open spec fn sb_net(n: SNet, fids: Seq<Seq<u8>>, st: BSt) -> Result<
    (Port, Seq<RedexPair>, BSt),
    Seq<u8>,
> {
    match sb_tree(n.root, fids, st) {
        Result::Err(nm) => Result::Err(nm),
        Result::Ok((root, st1)) => match sb_redexes(n.rbag, fids, st1, Seq::empty()) {
            Result::Err(nm) => Result::Err(nm),
            Result::Ok((rbag, st2)) => Result::Ok((root, rbag, st2)),
        },
    }
}

pub open spec fn main_name() -> Seq<u8> {
    seq!['m' as u8, 'a' as u8, 'i' as u8, 'n' as u8]
}

/// Every definition name except `main`, in book order.
pub open spec fn nonmain_names(defs: Seq<(Seq<u8>, SNet)>) -> Seq<Seq<u8>>
    decreases defs.len(),
{
    if defs.len() == 0 {
        Seq::empty()
    } else if defs[0].0 == main_name() {
        nonmain_names(defs.drop_first())
    } else {
        seq![defs[0].0] + nonmain_names(defs.drop_first())
    }
}

/// Id assignment: `main` always gets id 0; every other name follows in book
/// order.
pub open spec fn fid_names(defs: Seq<(Seq<u8>, SNet)>) -> Seq<Seq<u8>> {
    seq![main_name()] + nonmain_names(defs)
}

/// The net of the first definition carrying `nam`.
pub open spec fn lookup_def(defs: Seq<(Seq<u8>, SNet)>, nam: Seq<u8>) -> Option<SNet>
    decreases defs.len(),
{
    if defs.len() == 0 {
        Option::None
    } else if defs[0].0 == nam {
        Option::Some(defs[0].1)
    } else {
        lookup_def(defs.drop_first(), nam)
    }
}

pub open spec fn empty_bst() -> BSt {
    BSt { node: Seq::empty(), vars: Seq::empty(), safe: true }
}

/// Compiles the definitions named by `fids` from position `k` on.
pub open spec fn sb_defs(
    fids: Seq<Seq<u8>>,
    k: nat,
    defs: Seq<(Seq<u8>, SNet)>,
    acc: Seq<SDef>,
) -> Result<Seq<SDef>, SErr>
    decreases fids.len() - k,
    when k <= fids.len()
{
    if k >= fids.len() {
        Result::Ok(acc)
    } else {
        let nam = fids[k as int];
        match lookup_def(defs, nam) {
            Option::None => Result::Err(SErr::Missing),
            Option::Some(net) => match sb_net(net, fids, empty_bst()) {
                Result::Err(nm) => Result::Err(SErr::Unbound(nm)),
                Result::Ok((root, rbag, st)) => sb_defs(
                    fids,
                    k + 1,
                    defs,
                    acc.push(
                        SDef {
                            name: nam,
                            safe: st.safe,
                            root,
                            rbag,
                            node: st.node,
                            vars: (st.vars.len() as u32) as nat,
                        },
                    ),
                ),
            },
        }
    }
}

/// Compiles a whole book: fails with `Missing` when `main` is absent, else
/// compiles every definition in id order.
pub open spec fn sb_book(defs: Seq<(Seq<u8>, SNet)>) -> Result<Seq<SDef>, SErr> {
    if lookup_def(defs, main_name()).is_none() {
        Result::Err(SErr::Missing)
    } else {
        sb_defs(fid_names(defs), 0, defs, Seq::empty())
    }
}

pub open spec fn names_view(vs: Seq<Vec<u8>>) -> Seq<Seq<u8>> {
    vs.map(|k: int, v: Vec<u8>| v@)
}

proof fn lemma_find_name_found(names: Seq<Seq<u8>>, nam: Seq<u8>, k: int)
    requires
        0 <= k < names.len(),
        names[k] == nam,
        forall|m: int| 0 <= m < k ==> names[m] != nam,
    ensures
        find_name(names, nam) == Option::Some(k as nat),
    decreases names.len(),
{
    if k > 0 {
        lemma_find_name_found(names.drop_first(), nam, k - 1);
    }
}

proof fn lemma_find_name_absent(names: Seq<Seq<u8>>, nam: Seq<u8>)
    requires
        forall|m: int| 0 <= m < names.len() ==> names[m] != nam,
    ensures
        find_name(names, nam).is_none(),
    decreases names.len(),
{
    if names.len() > 0 {
        lemma_find_name_absent(names.drop_first(), nam);
    }
}

proof fn lemma_lookup_found(defs: Seq<(Seq<u8>, SNet)>, nam: Seq<u8>, k: int)
    requires
        0 <= k < defs.len(),
        defs[k].0 == nam,
        forall|m: int| 0 <= m < k ==> (#[trigger] defs[m]).0 != nam,
    ensures
        lookup_def(defs, nam) == Option::Some(defs[k].1),
    decreases defs.len(),
{
    if k > 0 {
        lemma_lookup_found(defs.drop_first(), nam, k - 1);
    }
}

proof fn lemma_lookup_absent(defs: Seq<(Seq<u8>, SNet)>, nam: Seq<u8>)
    requires
        forall|m: int| 0 <= m < defs.len() ==> (#[trigger] defs[m]).0 != nam,
    ensures
        lookup_def(defs, nam).is_none(),
    decreases defs.len(),
{
    if defs.len() > 0 {
        lemma_lookup_absent(defs.drop_first(), nam);
    }
}

/// Appending a definition extends the non-`main` name list at its end.
proof fn lemma_nonmain_push(ds: Seq<(Seq<u8>, SNet)>, d: (Seq<u8>, SNet))
    ensures
        nonmain_names(ds.push(d)) == nonmain_names(ds) + (if d.0 == main_name() {
            Seq::<Seq<u8>>::empty()
        } else {
            seq![d.0]
        }),
    decreases ds.len(),
{
    reveal_with_fuel(nonmain_names, 3);
    if ds.len() == 0 {
        assert(ds.push(d).drop_first() =~= Seq::<(Seq<u8>, SNet)>::empty());
        if d.0 == main_name() {
            assert(nonmain_names(ds.push(d)) =~~= nonmain_names(ds) + Seq::<Seq<u8>>::empty());
        } else {
            assert(nonmain_names(ds.push(d)) =~~= nonmain_names(ds) + seq![d.0]);
        }
    } else {
        assert(ds.push(d).drop_first() =~= ds.drop_first().push(d));
        lemma_nonmain_push(ds.drop_first(), d);
        if d.0 == main_name() {
            assert(nonmain_names(ds.push(d)) =~~= nonmain_names(ds) + Seq::<Seq<u8>>::empty());
        } else {
            assert(nonmain_names(ds.push(d)) =~~= nonmain_names(ds) + seq![d.0]);
        }
    }
}

fn copy_bytes(v: &Vec<u8>) -> (r: Vec<u8>)
    ensures
        r@ == v@,
{
    let mut r: Vec<u8> = Vec::new();
    crate::lex::push_all(&mut r, v.as_slice());
    proof {
        assert(r@ =~= v@);
    }
    r
}

/// The bytes of `main`.
fn b_main() -> (r: Vec<u8>)
    ensures
        r@ == main_name(),
{
    let mut v: Vec<u8> = Vec::new();
    v.push('m' as u8);
    v.push('a' as u8);
    v.push('i' as u8);
    v.push('n' as u8);
    proof {
        assert(v@ =~= main_name());
    }
    v
}

/// The position of the first name equal to `nam`.
fn find_in(names: &Vec<Vec<u8>>, nam: &[u8]) -> (r: Option<usize>)
    ensures
        r.is_some() == find_name(names_view(names@), nam@).is_some(),
        r.is_some() ==> r->Some_0 as nat == find_name(names_view(names@), nam@)->Some_0,
{
    let mut k: usize = 0;
    while k < names.len()
        invariant
            k <= names@.len(),
            forall|m: int| 0 <= m < k ==> names_view(names@)[m] != nam@,
        decreases names@.len() - k,
    {
        if crate::parse::bytes_eq(names[k].as_slice(), nam) {
            proof {
                lemma_find_name_found(names_view(names@), nam@, k as int);
            }
            return Option::Some(k);
        }
        k = k + 1;
    }
    proof {
        lemma_find_name_absent(names_view(names@), nam@);
    }
    Option::None
}

impl Tree {
    /// Compiles one tree into ports and node slots of `def`, numbering the
    /// variables in `vars` by first occurrence; fails on an unknown
    /// reference.
    pub fn build(
        &self,
        def: &mut graph::Def,
        fids: &Vec<Vec<u8>>,
        vars: &mut Vec<Vec<u8>>,
    ) -> (r: Result<Port, CompileError>)
        requires
            old(def).vars == old(vars)@.len() as u32,
        ensures
            final(def).name == old(def).name,
            final(def).root == old(def).root,
            final(def).rbag == old(def).rbag,
            final(def).vars == final(vars)@.len() as u32,
            old(def).node@.len() <= final(def).node@.len(),
            ({
                let outcome = sb_tree(
                    tree_view(*self),
                    names_view(fids@),
                    BSt { node: old(def).node@, vars: names_view(old(vars)@), safe: old(def).safe },
                );
                match outcome {
                    Result::Ok((p, st)) => r.is_ok() && r->Ok_0 == p && final(def).node@ == st.node
                        && names_view(final(vars)@) == st.vars && final(def).safe == st.safe,
                    Result::Err(nm) => r.is_err() && err_view(r->Err_0) == SErr::Unbound(nm),
                }
            }),
        decreases *self,
    {
        match self {
            Tree::Var { nam } => {
                match find_in(vars, nam.as_slice()) {
                    Option::Some(k) => Result::Ok(
                        Port { tag: Tag::Var, val: #[verifier::truncate] (k as u32) },
                    ),
                    Option::None => {
                        let id: usize = vars.len();
                        vars.push(copy_bytes(nam));
                        def.vars = #[verifier::truncate] (vars.len() as u32);
                        proof {
                            assert(names_view(vars@) =~= names_view(old(vars)@).push(nam@));
                        }
                        Result::Ok(Port { tag: Tag::Var, val: #[verifier::truncate] (id as u32) })
                    },
                }
            },
            Tree::Ref { nam } => {
                match find_in(fids, nam.as_slice()) {
                    Option::Some(f) => Result::Ok(
                        Port { tag: Tag::Ref, val: #[verifier::truncate] (f as u32) },
                    ),
                    Option::None => Result::Err(CompileError::UnboundReference(copy_bytes(nam))),
                }
            },
            Tree::Era => Result::Ok(Port { tag: Tag::Era, val: 0 }),
            Tree::Num { val } => Result::Ok(Port { tag: Tag::Num, val: val.0 }),
            Tree::Con { fst, snd } => {
                let index: usize = def.node.len();
                def.node.push(
                    Pair {
                        fst: Port { tag: Tag::Var, val: 0 },
                        snd: Port { tag: Tag::Var, val: 0 },
                    },
                );
                let p1 = match fst.build(def, fids, vars) {
                    Result::Err(e) => {
                        return Result::Err(e);
                    },
                    Result::Ok(p) => p,
                };
                let p2 = match snd.build(def, fids, vars) {
                    Result::Err(e) => {
                        return Result::Err(e);
                    },
                    Result::Ok(p) => p,
                };
                def.node.set(index, Pair { fst: p1, snd: p2 });
                Result::Ok(Port { tag: Tag::Con, val: #[verifier::truncate] (index as u32) })
            },
            Tree::Dup { fst, snd } => {
                def.safe = false;
                let index: usize = def.node.len();
                def.node.push(
                    Pair {
                        fst: Port { tag: Tag::Var, val: 0 },
                        snd: Port { tag: Tag::Var, val: 0 },
                    },
                );
                let p1 = match fst.build(def, fids, vars) {
                    Result::Err(e) => {
                        return Result::Err(e);
                    },
                    Result::Ok(p) => p,
                };
                let p2 = match snd.build(def, fids, vars) {
                    Result::Err(e) => {
                        return Result::Err(e);
                    },
                    Result::Ok(p) => p,
                };
                def.node.set(index, Pair { fst: p1, snd: p2 });
                Result::Ok(Port { tag: Tag::Dup, val: #[verifier::truncate] (index as u32) })
            },
            Tree::Opr { fst, snd } => {
                let index: usize = def.node.len();
                def.node.push(
                    Pair {
                        fst: Port { tag: Tag::Var, val: 0 },
                        snd: Port { tag: Tag::Var, val: 0 },
                    },
                );
                let p1 = match fst.build(def, fids, vars) {
                    Result::Err(e) => {
                        return Result::Err(e);
                    },
                    Result::Ok(p) => p,
                };
                let p2 = match snd.build(def, fids, vars) {
                    Result::Err(e) => {
                        return Result::Err(e);
                    },
                    Result::Ok(p) => p,
                };
                def.node.set(index, Pair { fst: p1, snd: p2 });
                Result::Ok(Port { tag: Tag::Opr, val: #[verifier::truncate] (index as u32) })
            },
            Tree::Swi { fst, snd } => {
                let index: usize = def.node.len();
                def.node.push(
                    Pair {
                        fst: Port { tag: Tag::Var, val: 0 },
                        snd: Port { tag: Tag::Var, val: 0 },
                    },
                );
                let p1 = match fst.build(def, fids, vars) {
                    Result::Err(e) => {
                        return Result::Err(e);
                    },
                    Result::Ok(p) => p,
                };
                let p2 = match snd.build(def, fids, vars) {
                    Result::Err(e) => {
                        return Result::Err(e);
                    },
                    Result::Ok(p) => p,
                };
                def.node.set(index, Pair { fst: p1, snd: p2 });
                Result::Ok(Port { tag: Tag::Swi, val: #[verifier::truncate] (index as u32) })
            },
        }
    }
}

impl Net {
    /// Compiles one net into `def`: the root port, then each pending
    /// interaction.
    pub fn build(
        &self,
        def: &mut graph::Def,
        fids: &Vec<Vec<u8>>,
        vars: &mut Vec<Vec<u8>>,
    ) -> (r: Result<(), CompileError>)
        requires
            old(def).vars == old(vars)@.len() as u32,
        ensures
            final(def).name == old(def).name,
            final(def).vars == final(vars)@.len() as u32,
            ({
                let outcome = sb_net(
                    net_view(*self),
                    names_view(fids@),
                    BSt { node: old(def).node@, vars: names_view(old(vars)@), safe: old(def).safe },
                );
                match outcome {
                    Result::Ok((root, rbag, st)) => {
                        &&& r.is_ok()
                        &&& final(def).root == root
                        &&& final(def).rbag@ == old(def).rbag@ + rbag
                        &&& final(def).node@ == st.node
                        &&& names_view(final(vars)@) == st.vars
                        &&& final(def).safe == st.safe
                    },
                    Result::Err(nm) => r.is_err() && err_view(r->Err_0) == SErr::Unbound(nm),
                }
            }),
    {
        let ghost fv = names_view(fids@);
        let ghost st0 = BSt {
            node: def.node@,
            vars: names_view(vars@),
            safe: def.safe,
        };
        let root_port = match self.root.build(def, fids, vars) {
            Result::Err(e) => {
                return Result::Err(e);
            },
            Result::Ok(p) => p,
        };
        def.root = root_port;
        let ghost st1 = BSt { node: def.node@, vars: names_view(vars@), safe: def.safe };
        let ghost rbag0 = def.rbag@;
        let ghost rv = net_view(*self).rbag;
        proof {
            assert(rv =~= self.rbag@.map(|k: int, r: crate::ast::Redex| crate::parse::redex_view(r)));
        }
        let mut i: usize = 0;
        proof {
            assert(rv.skip(0) =~= rv);
            assert(def.rbag@.skip(rbag0.len() as int) =~= Seq::<RedexPair>::empty());
            assert(def.rbag@.subrange(0, rbag0.len() as int) =~= rbag0);
        }
        while i < self.rbag.len()
            invariant
                i <= self.rbag@.len(),
                def.vars == vars@.len() as u32,
                def.name == old(def).name,
                rbag0.len() <= def.rbag@.len(),
                def.root == root_port,
                rv == net_view(*self).rbag,
                rv.len() == self.rbag@.len(),
                st0 == (BSt {
                    node: old(def).node@,
                    vars: names_view(old(vars)@),
                    safe: old(def).safe,
                }),
                rbag0 == old(def).rbag@,
                sb_tree(net_view(*self).root, fv, st0) == Result::<(Port, BSt), Seq<u8>>::Ok(
                    (root_port, st1),
                ),
                sb_redexes(rv, fv, st1, Seq::empty()) == sb_redexes(
                    rv.skip(i as int),
                    fv,
                    BSt { node: def.node@, vars: names_view(vars@), safe: def.safe },
                    def.rbag@.skip(rbag0.len() as int),
                ),
                def.rbag@.subrange(0, rbag0.len() as int) == rbag0,
                fv == names_view(fids@),
            decreases self.rbag@.len() - i,
        {
            let ghost cur_st = BSt { node: def.node@, vars: names_view(vars@), safe: def.safe };
            let ghost cur_acc = def.rbag@.skip(rbag0.len() as int);
            proof {
                assert(rv.skip(i as int)[0] == rv[i as int]);
                assert(rv[i as int] == crate::parse::redex_view(self.rbag@[i as int]));
            }
            let rx = &self.rbag[i];
            let p1 = match rx.1.build(def, fids, vars) {
                Result::Err(e) => {
                    return Result::Err(e);
                },
                Result::Ok(p) => p,
            };
            let p2 = match rx.2.build(def, fids, vars) {
                Result::Err(e) => {
                    return Result::Err(e);
                },
                Result::Ok(p) => p,
            };
            def.rbag.push(RedexPair { par: rx.0, fst: p1, snd: p2 });
            proof {
                assert(rv.skip(i as int).drop_first() =~= rv.skip(i + 1));
                assert(def.rbag@.skip(rbag0.len() as int) =~= cur_acc.push(
                    RedexPair { par: self.rbag@[i as int].0, fst: p1, snd: p2 },
                ));
                assert(def.rbag@.subrange(0, rbag0.len() as int) =~= rbag0);
            }
            i = i + 1;
        }
        proof {
            assert(rv.skip(self.rbag@.len() as int) =~= Seq::<(bool, STree, STree)>::empty());
            assert(def.rbag@ =~= rbag0 + def.rbag@.skip(rbag0.len() as int));
        }
        Result::Ok(())
    }
}

/// The net of the first definition named `nam`, by position.
fn lookup_in(defs: &Vec<(Vec<u8>, Net)>, nam: &[u8]) -> (r: Option<usize>)
    ensures
        r.is_some() == lookup_def(defs_view(defs@), nam@).is_some(),
        r.is_some() ==> {
            let ix = r->Some_0;
            ix < defs@.len() && lookup_def(defs_view(defs@), nam@) == Option::Some(
                net_view(defs@[ix as int].1),
            )
        },
{
    let mut k: usize = 0;
    while k < defs.len()
        invariant
            k <= defs@.len(),
            forall|m: int| 0 <= m < k ==> (#[trigger] defs_view(defs@)[m]).0 != nam@,
        decreases defs@.len() - k,
    {
        if crate::parse::bytes_eq(defs[k].0.as_slice(), nam) {
            proof {
                lemma_lookup_found(defs_view(defs@), nam@, k as int);
            }
            return Option::Some(k);
        }
        k = k + 1;
    }
    proof {
        lemma_lookup_absent(defs_view(defs@), nam@);
    }
    Option::None
}

impl Book {
    /// Compiles a whole program: `main` gets id 0, every other definition the
    /// next id in book order; fails when `main` is absent or a reference is
    /// unbound.
    pub fn build(&self) -> (r: Result<graph::Book, CompileError>)
        ensures
            ({
                let outcome = sb_book(crate::parse::book_view(*self));
                match outcome {
                    Result::Ok(ds) => r.is_ok() && graph::book_defs_view(r->Ok_0) == ds,
                    Result::Err(e) => r.is_err() && err_view(r->Err_0) == e,
                }
            }),
    {
        let ghost bv = crate::parse::book_view(*self);
        proof {
            assert(bv == defs_view(self.defs@));
        }
        let main_tok = b_main();
        match lookup_in(&self.defs, main_tok.as_slice()) {
            Option::None => {
                return Result::Err(CompileError::MissingEntryPoint);
            },
            Option::Some(_) => {},
        }
        // id assignment: main first, then every other name in book order
        let mut fids: Vec<Vec<u8>> = Vec::new();
        fids.push(b_main());
        proof {
            assert(names_view(fids@) =~= seq![main_name()] + nonmain_names(
                bv.subrange(0, 0),
            ));
            assert(bv.subrange(0, 0) =~= Seq::<(Seq<u8>, SNet)>::empty());
        }
        let mut i: usize = 0;
        while i < self.defs.len()
            invariant
                i <= self.defs@.len(),
                bv == defs_view(self.defs@),
                bv.len() == self.defs@.len(),
                main_tok@ == main_name(),
                names_view(fids@) == seq![main_name()] + nonmain_names(bv.subrange(0, i as int)),
            decreases self.defs@.len() - i,
        {
            let ghost pre = bv.subrange(0, i as int);
            let ghost pre_fids = names_view(fids@);
            let ghost d0 = bv[i as int].0;
            proof {
                assert(d0 == self.defs@[i as int].0@);
            }
            if !crate::parse::bytes_eq(self.defs[i].0.as_slice(), main_tok.as_slice()) {
                let cpy = copy_bytes(&self.defs[i].0);
                fids.push(cpy);
                proof {
                    assert(names_view(fids@) =~= pre_fids.push(d0));
                }
            }
            proof {
                assert(bv.subrange(0, i + 1) =~= pre.push(bv[i as int]));
                lemma_nonmain_push(pre, bv[i as int]);
                if d0 == main_name() {
                    assert(nonmain_names(bv.subrange(0, i + 1)) =~~= nonmain_names(pre));
                    assert(names_view(fids@) =~~= seq![main_name()] + nonmain_names(
                        bv.subrange(0, i + 1),
                    ));
                } else {
                    assert(nonmain_names(bv.subrange(0, i + 1)) =~~= nonmain_names(pre) + seq![d0]);
                    assert(pre_fids.push(d0) =~~= seq![main_name()] + (nonmain_names(pre) + seq![
                        d0,
                    ]));
                    assert(names_view(fids@) =~~= seq![main_name()] + nonmain_names(
                        bv.subrange(0, i + 1),
                    ));
                }
            }
            i = i + 1;
        }
        proof {
            assert(bv.subrange(0, bv.len() as int) =~= bv);
            assert(names_view(fids@) == fid_names(bv));
        }
        // compile each definition in id order
        let mut out: Vec<graph::Def> = Vec::new();
        let mut k: usize = 0;
        proof {
            assert(graph::book_defs_view(graph::Book { defs: out }) =~= Seq::<SDef>::empty());
        }
        while k < fids.len()
            invariant
                k <= fids@.len(),
                bv == defs_view(self.defs@),
                bv == crate::parse::book_view(*self),
                names_view(fids@) == fid_names(bv),
                lookup_def(bv, main_name()).is_some(),
                sb_defs(fid_names(bv), 0, bv, Seq::empty()) == sb_defs(
                    fid_names(bv),
                    k as nat,
                    bv,
                    out@.map(|m: int, d: graph::Def| graph::def_view(d)),
                ),
            decreases fids@.len() - k,
        {
            let ghost acc = out@.map(|m: int, d: graph::Def| graph::def_view(d));
            let nam = copy_bytes(&fids[k]);
            let ix = match lookup_in(&self.defs, nam.as_slice()) {
                Option::None => {
                    return Result::Err(CompileError::MissingEntryPoint);
                },
                Option::Some(ix) => ix,
            };
            let mut def = graph::Def {
                name: nam,
                safe: true,
                root: Port { tag: Tag::Var, val: 0 },
                rbag: Vec::new(),
                node: Vec::new(),
                vars: 0,
            };
            let mut vars: Vec<Vec<u8>> = Vec::new();
            proof {
                assert(names_view(vars@) =~= Seq::<Seq<u8>>::empty());
                assert(def.node@ =~= Seq::<Pair>::empty());
                assert(def.rbag@ =~= Seq::<RedexPair>::empty());
                assert(BSt { node: def.node@, vars: names_view(vars@), safe: def.safe }
                    == empty_bst());
            }
            match self.defs[ix].1.build(&mut def, &fids, &mut vars) {
                Result::Err(e) => {
                    return Result::Err(e);
                },
                Result::Ok(()) => {},
            }
            out.push(def);
            proof {
                assert(Seq::<RedexPair>::empty() + sb_net(
                    net_view(self.defs@[ix as int].1),
                    names_view(fids@),
                    empty_bst(),
                )->Ok_0.1 =~= sb_net(
                    net_view(self.defs@[ix as int].1),
                    names_view(fids@),
                    empty_bst(),
                )->Ok_0.1);
                assert(out@.map(|m: int, d: graph::Def| graph::def_view(d)) =~= acc.push(
                    graph::def_view(out@.last()),
                ));
            }
            k = k + 1;
        }
        proof {
            assert(sb_defs(fid_names(bv), fids@.len() as nat, bv, out@.map(
                |m: int, d: graph::Def| graph::def_view(d),
            )) == Result::<Seq<SDef>, SErr>::Ok(out@.map(|m: int, d: graph::Def| graph::def_view(d))));
            assert(graph::book_defs_view(graph::Book { defs: out }) == out@.map(
                |m: int, d: graph::Def| graph::def_view(d),
            ));
        }
        Result::Ok(graph::Book { defs: out })
    }
}

} // verus!
