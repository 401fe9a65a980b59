//! Proved properties of the codec and the compiler: numeric exactness, the
//! safety flag, id assignment, and the compile-time failure conditions.

use vstd::prelude::*;

use crate::compile::{
    empty_bst, fid_names, find_name, lookup_def, main_name, nonmain_names, sb_book, sb_defs,
    sb_net, sb_redexes, sb_tree, BSt, SErr,
};
use crate::graph::SDef;
use crate::numb::{
    f24_f32bits_of, f24_numb, f32bits_is_nan, f32bits_is_neg_inf, f32bits_is_pos_inf, i24_numb,
    i24_of, pay_of, show_numb, typ_of, u24_numb, TY_F24, TY_I24, TY_U24,
};
use crate::parse::{SNet, STree};

verus! {

/// Decoding an encoded unsigned 24-bit integer gives the value back, and the
/// tag reads unsigned.
pub proof fn lemma_u24_exact(v: u32)
    requires
        v < 0x1000000,
    ensures
        pay_of(u24_numb(v)) == v,
        typ_of(u24_numb(v)) == TY_U24,
{
    assert(((v << 5u32) | 1u32) >> 5u32 == v && ((v << 5u32) | 1u32) & 0x1F == 1u32)
        by (bit_vector)
        requires
            v < 0x1000000,
    ;
}

/// Decoding an encoded signed 24-bit integer gives the value back, and the
/// tag reads signed.
pub proof fn lemma_i24_exact(v: i32)
    requires
        -0x800000 <= v < 0x800000,
    ensures
        i24_of(i24_numb(v)) == v,
        typ_of(i24_numb(v)) == TY_I24,
{
    assert((((((((v as u32) << 8u32) >> 3u32) | 2u32) as i32) << 3u32) >> 8u32) == v && ((((
    v as u32) << 8u32) >> 3u32) | 2u32) & 0x1F == 2u32) by (bit_vector)
        requires
            -0x800000 <= v < 0x800000,
    ;
}

/// Decoding an encoded 24-bit float gives the same bit pattern back (a
/// representable pattern has its low eight bits clear), and the tag reads
/// float.
pub proof fn lemma_f24_exact(b: u32)
    requires
        b & 0xFF == 0,
    ensures
        f24_f32bits_of(f24_numb(b)) == b,
        typ_of(f24_numb(b)) == TY_F24,
{
    assert(b & 0xFF == 0 ==> !(b & 0xFF > 0x80) && !(b & 0xFF == 0x80)) by (bit_vector);
    assert(f24_numb(b) == ((((b >> 8u32) + 0) * 32) + 3) % 0x100000000);
    assert(((((((b >> 8u32) * 32) + 3) % 0x100000000) as u32) << 3u32) & 0xFFFFFF00 == b
        && (((((b >> 8u32) * 32) + 3) % 0x100000000) as u32) & 0x1F == 3u32) by (bit_vector)
        requires
            b & 0xFF == 0,
    ;
}

/// The two infinities encode to distinct values, and each decodes back to its
/// own pattern.
pub proof fn lemma_inf_distinct()
    ensures
        f24_numb(0x7F800000) != f24_numb(0xFF800000),
        f24_f32bits_of(f24_numb(0x7F800000)) == 0x7F800000u32,
        f24_f32bits_of(f24_numb(0xFF800000)) == 0xFF800000u32,
{
    assert(0x7F800000u32 & 0xFF == 0 && 0xFF800000u32 & 0xFF == 0) by (bit_vector);
    lemma_f24_exact(0x7F800000);
    lemma_f24_exact(0xFF800000);
}

/// A NaN-valued 24-bit float always renders as `+NaN`.
pub proof fn lemma_nan_shows(n: u32)
    requires
        typ_of(n) == TY_F24,
        f32bits_is_nan(f24_f32bits_of(n)),
    ensures
        show_numb(n) == seq!['+' as u8, 'N' as u8, 'a' as u8, 'N' as u8],
{
    let b = f24_f32bits_of(n);
    assert(!f32bits_is_pos_inf(b) && !f32bits_is_neg_inf(b)) by {
        if b == 0x7F800000 || b == 0xFF800000 {
            assert(!((b >> 23u32) & 0xFF == 0xFF && b & 0x7FFFFF != 0)) by (bit_vector)
                requires
                    b == 0x7F800000 || b == 0xFF800000,
            ;
        }
    };
}

/// Whether a tree holds a duplicator node anywhere.
pub open spec fn tree_has_dup(t: STree) -> bool
    decreases t,
{
    match t {
        STree::Dup { fst, snd } => true,
        STree::Con { fst, snd } => tree_has_dup(*fst) || tree_has_dup(*snd),
        STree::Opr { fst, snd } => tree_has_dup(*fst) || tree_has_dup(*snd),
        STree::Swi { fst, snd } => tree_has_dup(*fst) || tree_has_dup(*snd),
        _ => false,
    }
}

pub open spec fn rbag_has_dup(rs: Seq<(bool, STree, STree)>) -> bool
    decreases rs.len(),
{
    if rs.len() == 0 {
        false
    } else {
        tree_has_dup(rs[0].1) || tree_has_dup(rs[0].2) || rbag_has_dup(rs.drop_first())
    }
}

/// Whether a net holds a duplicator node anywhere.
pub open spec fn net_has_dup(n: SNet) -> bool {
    tree_has_dup(n.root) || rbag_has_dup(n.rbag)
}

proof fn lemma_tree_safety(t: STree, fids: Seq<Seq<u8>>, st: BSt)
    ensures
        sb_tree(t, fids, st).is_ok() ==> sb_tree(t, fids, st)->Ok_0.1.safe == (st.safe
            && !tree_has_dup(t)),
    decreases t,
{
    match t {
        STree::Con { fst, snd } => {
            let st0 = BSt { node: st.node.push(crate::compile::zero_pair()), ..st };
            lemma_tree_safety(*fst, fids, st0);
            if sb_tree(*fst, fids, st0).is_ok() {
                lemma_tree_safety(*snd, fids, sb_tree(*fst, fids, st0)->Ok_0.1);
            }
        },
        STree::Dup { fst, snd } => {
            let stq = BSt { safe: false, ..st };
            let st0 = BSt { node: stq.node.push(crate::compile::zero_pair()), ..stq };
            lemma_tree_safety(*fst, fids, st0);
            if sb_tree(*fst, fids, st0).is_ok() {
                lemma_tree_safety(*snd, fids, sb_tree(*fst, fids, st0)->Ok_0.1);
            }
        },
        STree::Opr { fst, snd } => {
            let st0 = BSt { node: st.node.push(crate::compile::zero_pair()), ..st };
            lemma_tree_safety(*fst, fids, st0);
            if sb_tree(*fst, fids, st0).is_ok() {
                lemma_tree_safety(*snd, fids, sb_tree(*fst, fids, st0)->Ok_0.1);
            }
        },
        STree::Swi { fst, snd } => {
            let st0 = BSt { node: st.node.push(crate::compile::zero_pair()), ..st };
            lemma_tree_safety(*fst, fids, st0);
            if sb_tree(*fst, fids, st0).is_ok() {
                lemma_tree_safety(*snd, fids, sb_tree(*fst, fids, st0)->Ok_0.1);
            }
        },
        _ => {},
    }
}

proof fn lemma_redexes_safety(
    rs: Seq<(bool, STree, STree)>,
    fids: Seq<Seq<u8>>,
    st: BSt,
    acc: Seq<crate::graph::RedexPair>,
)
    ensures
        sb_redexes(rs, fids, st, acc).is_ok() ==> sb_redexes(rs, fids, st, acc)->Ok_0.1.safe == (
        st.safe && !rbag_has_dup(rs)),
    decreases rs.len(),
{
    if rs.len() > 0 {
        lemma_tree_safety(rs[0].1, fids, st);
        if sb_tree(rs[0].1, fids, st).is_ok() {
            let st1 = sb_tree(rs[0].1, fids, st)->Ok_0.1;
            lemma_tree_safety(rs[0].2, fids, st1);
            if sb_tree(rs[0].2, fids, st1).is_ok() {
                let st2 = sb_tree(rs[0].2, fids, st1)->Ok_0.1;
                let p1 = sb_tree(rs[0].1, fids, st)->Ok_0.0;
                let p2 = sb_tree(rs[0].2, fids, st1)->Ok_0.0;
                lemma_redexes_safety(
                    rs.drop_first(),
                    fids,
                    st2,
                    acc.push(crate::graph::RedexPair { par: rs[0].0, fst: p1, snd: p2 }),
                );
            }
        }
    }
}

/// The safety law: a definition compiles with `safe == false` exactly when
/// its net holds a duplicator node somewhere.
pub proof fn lemma_compile_safety(n: SNet, fids: Seq<Seq<u8>>)
    ensures
        sb_net(n, fids, empty_bst()).is_ok() ==> sb_net(n, fids, empty_bst())->Ok_0.2.safe == (
        !net_has_dup(n)),
{
    lemma_tree_safety(n.root, fids, empty_bst());
    if sb_tree(n.root, fids, empty_bst()).is_ok() {
        let st1 = sb_tree(n.root, fids, empty_bst())->Ok_0.1;
        lemma_redexes_safety(n.rbag, fids, st1, Seq::empty());
    }
}

proof fn lemma_sb_defs_names(
    fids: Seq<Seq<u8>>,
    k: nat,
    defs: Seq<(Seq<u8>, SNet)>,
    acc: Seq<SDef>,
)
    requires
        k <= fids.len(),
    ensures
        sb_defs(fids, k, defs, acc).is_ok() ==> {
            let ds = sb_defs(fids, k, defs, acc)->Ok_0;
            &&& ds.len() == acc.len() + fids.len() - k
            &&& forall|m: int| 0 <= m < acc.len() ==> ds[m] == acc[m]
            &&& forall|m: int|
                acc.len() <= m < ds.len() ==> (#[trigger] ds[m]).name == fids[m - acc.len() + k]
        },
    decreases fids.len() - k,
{
    if k < fids.len() {
        let nam = fids[k as int];
        match lookup_def(defs, nam) {
            Option::None => {},
            Option::Some(net) => {
                match sb_net(net, fids, empty_bst()) {
                    Result::Err(_) => {},
                    Result::Ok((root, rbag, st)) => {
                        let d = SDef {
                            name: nam,
                            safe: st.safe,
                            root,
                            rbag,
                            node: st.node,
                            vars: (st.vars.len() as u32) as nat,
                        };
                        lemma_sb_defs_names(fids, k + 1, defs, acc.push(d));
                    },
                }
            },
        }
    }
}

/// The id-assignment law: when a book compiles, it yields one definition per
/// assigned id, `main` first with id 0, then every other name in book order.
pub proof fn lemma_id_assignment(defs: Seq<(Seq<u8>, SNet)>)
    ensures
        sb_book(defs).is_ok() ==> {
            let ds = sb_book(defs)->Ok_0;
            &&& ds.len() == fid_names(defs).len()
            &&& forall|m: int| 0 <= m < ds.len() ==> (#[trigger] ds[m]).name == fid_names(defs)[m]
            &&& fid_names(defs)[0] == main_name()
        },
{
    if sb_book(defs).is_ok() {
        lemma_sb_defs_names(fid_names(defs), 0, defs, Seq::empty());
    }
}

proof fn lemma_nonmain_in_defs(defs: Seq<(Seq<u8>, SNet)>, j: int)
    requires
        0 <= j < nonmain_names(defs).len(),
    ensures
        lookup_def(defs, nonmain_names(defs)[j]).is_some(),
    decreases defs.len(),
{
    if defs.len() > 0 {
        if defs[0].0 == main_name() {
            lemma_nonmain_in_defs(defs.drop_first(), j);
            lemma_lookup_cons(defs, nonmain_names(defs)[j]);
        } else {
            if j == 0 {
            } else {
                lemma_nonmain_in_defs(defs.drop_first(), j - 1);
                lemma_lookup_cons(defs, nonmain_names(defs)[j]);
            }
        }
    }
}

proof fn lemma_lookup_cons(defs: Seq<(Seq<u8>, SNet)>, nam: Seq<u8>)
    requires
        defs.len() > 0,
        lookup_def(defs.drop_first(), nam).is_some(),
    ensures
        lookup_def(defs, nam).is_some(),
{
}

proof fn lemma_sb_defs_not_missing(fids: Seq<Seq<u8>>, k: nat, defs: Seq<(Seq<u8>, SNet)>, acc: Seq<SDef>)
    requires
        k <= fids.len(),
        forall|m: int| k <= m < fids.len() ==> lookup_def(defs, #[trigger] fids[m]).is_some(),
    ensures
        sb_defs(fids, k, defs, acc) != Result::<Seq<SDef>, SErr>::Err(SErr::Missing),
    decreases fids.len() - k,
{
    if k < fids.len() {
        let nam = fids[k as int];
        match lookup_def(defs, nam) {
            Option::None => {},
            Option::Some(net) => {
                match sb_net(net, fids, empty_bst()) {
                    Result::Err(_) => {},
                    Result::Ok((root, rbag, st)) => {
                        let d = SDef {
                            name: nam,
                            safe: st.safe,
                            root,
                            rbag,
                            node: st.node,
                            vars: (st.vars.len() as u32) as nat,
                        };
                        lemma_sb_defs_not_missing(fids, k + 1, defs, acc.push(d));
                    },
                }
            },
        }
    }
}

/// The entry-point law: compilation fails with the missing-entry-point error
/// exactly when the book has no `main`, and then no graph is produced.
pub proof fn lemma_missing_entry(defs: Seq<(Seq<u8>, SNet)>)
    ensures
        (sb_book(defs) == Result::<Seq<SDef>, SErr>::Err(SErr::Missing)) <==> lookup_def(
            defs,
            main_name(),
        ).is_none(),
{
    if lookup_def(defs, main_name()).is_some() {
        let fids = fid_names(defs);
        assert forall|m: int| 0 <= m < fids.len() implies lookup_def(
            defs,
            #[trigger] fids[m],
        ).is_some() by {
            if m == 0 {
                assert(fids[0] == main_name());
            } else {
                assert(fids[m] == nonmain_names(defs)[m - 1]);
                lemma_nonmain_in_defs(defs, m - 1);
            }
        }
        lemma_sb_defs_not_missing(fids, 0, defs, Seq::empty());
    }
}

/// Whether a tree references the definition name `nam`.
pub open spec fn tree_refs(t: STree, nam: Seq<u8>) -> bool
    decreases t,
{
    match t {
        STree::Ref { nam: r } => r == nam,
        STree::Con { fst, snd } => tree_refs(*fst, nam) || tree_refs(*snd, nam),
        STree::Dup { fst, snd } => tree_refs(*fst, nam) || tree_refs(*snd, nam),
        STree::Opr { fst, snd } => tree_refs(*fst, nam) || tree_refs(*snd, nam),
        STree::Swi { fst, snd } => tree_refs(*fst, nam) || tree_refs(*snd, nam),
        _ => false,
    }
}

pub open spec fn rbag_refs(rs: Seq<(bool, STree, STree)>, nam: Seq<u8>) -> bool
    decreases rs.len(),
{
    if rs.len() == 0 {
        false
    } else {
        tree_refs(rs[0].1, nam) || tree_refs(rs[0].2, nam) || rbag_refs(rs.drop_first(), nam)
    }
}

pub open spec fn net_refs(n: SNet, nam: Seq<u8>) -> bool {
    tree_refs(n.root, nam) || rbag_refs(n.rbag, nam)
}

proof fn lemma_tree_unbound(t: STree, fids: Seq<Seq<u8>>, st: BSt)
    ensures
        sb_tree(t, fids, st).is_err() ==> {
            let nm = sb_tree(t, fids, st)->Err_0;
            tree_refs(t, nm) && find_name(fids, nm).is_none()
        },
    decreases t,
{
    match t {
        STree::Con { fst, snd } => {
            let st0 = BSt { node: st.node.push(crate::compile::zero_pair()), ..st };
            lemma_tree_unbound(*fst, fids, st0);
            if sb_tree(*fst, fids, st0).is_ok() {
                lemma_tree_unbound(*snd, fids, sb_tree(*fst, fids, st0)->Ok_0.1);
            }
        },
        STree::Dup { fst, snd } => {
            let stq = BSt { safe: false, ..st };
            let st0 = BSt { node: stq.node.push(crate::compile::zero_pair()), ..stq };
            lemma_tree_unbound(*fst, fids, st0);
            if sb_tree(*fst, fids, st0).is_ok() {
                lemma_tree_unbound(*snd, fids, sb_tree(*fst, fids, st0)->Ok_0.1);
            }
        },
        STree::Opr { fst, snd } => {
            let st0 = BSt { node: st.node.push(crate::compile::zero_pair()), ..st };
            lemma_tree_unbound(*fst, fids, st0);
            if sb_tree(*fst, fids, st0).is_ok() {
                lemma_tree_unbound(*snd, fids, sb_tree(*fst, fids, st0)->Ok_0.1);
            }
        },
        STree::Swi { fst, snd } => {
            let st0 = BSt { node: st.node.push(crate::compile::zero_pair()), ..st };
            lemma_tree_unbound(*fst, fids, st0);
            if sb_tree(*fst, fids, st0).is_ok() {
                lemma_tree_unbound(*snd, fids, sb_tree(*fst, fids, st0)->Ok_0.1);
            }
        },
        _ => {},
    }
}

proof fn lemma_redexes_unbound(
    rs: Seq<(bool, STree, STree)>,
    fids: Seq<Seq<u8>>,
    st: BSt,
    acc: Seq<crate::graph::RedexPair>,
)
    ensures
        sb_redexes(rs, fids, st, acc).is_err() ==> {
            let nm = sb_redexes(rs, fids, st, acc)->Err_0;
            rbag_refs(rs, nm) && find_name(fids, nm).is_none()
        },
    decreases rs.len(),
{
    if rs.len() > 0 {
        lemma_tree_unbound(rs[0].1, fids, st);
        if sb_tree(rs[0].1, fids, st).is_ok() {
            let st1 = sb_tree(rs[0].1, fids, st)->Ok_0.1;
            lemma_tree_unbound(rs[0].2, fids, st1);
            if sb_tree(rs[0].2, fids, st1).is_ok() {
                let st2 = sb_tree(rs[0].2, fids, st1)->Ok_0.1;
                let p1 = sb_tree(rs[0].1, fids, st)->Ok_0.0;
                let p2 = sb_tree(rs[0].2, fids, st1)->Ok_0.0;
                lemma_redexes_unbound(
                    rs.drop_first(),
                    fids,
                    st2,
                    acc.push(crate::graph::RedexPair { par: rs[0].0, fst: p1, snd: p2 }),
                );
            }
        }
    }
}

/// One net's unbound-reference law: a failed net compilation names a
/// reference that occurs in the net and is bound to no definition id.
pub proof fn lemma_net_unbound(n: SNet, fids: Seq<Seq<u8>>, st: BSt)
    ensures
        sb_net(n, fids, st).is_err() ==> {
            let nm = sb_net(n, fids, st)->Err_0;
            net_refs(n, nm) && find_name(fids, nm).is_none()
        },
{
    lemma_tree_unbound(n.root, fids, st);
    if sb_tree(n.root, fids, st).is_ok() {
        let st1 = sb_tree(n.root, fids, st)->Ok_0.1;
        lemma_redexes_unbound(n.rbag, fids, st1, Seq::empty());
    }
}

/// The unbound-reference law: a compilation that fails naming a reference
/// points at a name that some definition's net references and that no
/// definition id carries.
pub proof fn lemma_book_unbound(defs: Seq<(Seq<u8>, SNet)>, nm: Seq<u8>)
    requires
        sb_book(defs) == Result::<Seq<SDef>, SErr>::Err(SErr::Unbound(nm)),
    ensures
        find_name(fid_names(defs), nm).is_none(),
        exists|j: int|
            0 <= j < defs.len() && net_refs((#[trigger] defs[j]).1, nm),
{
    lemma_book_unbound_at(fid_names(defs), 0, defs, Seq::empty(), nm);
}

proof fn lemma_book_unbound_at(
    fids: Seq<Seq<u8>>,
    k: nat,
    defs: Seq<(Seq<u8>, SNet)>,
    acc: Seq<SDef>,
    nm: Seq<u8>,
)
    requires
        k <= fids.len(),
        sb_defs(fids, k, defs, acc) == Result::<Seq<SDef>, SErr>::Err(SErr::Unbound(nm)),
    ensures
        find_name(fids, nm).is_none(),
        exists|j: int| 0 <= j < defs.len() && net_refs((#[trigger] defs[j]).1, nm),
    decreases fids.len() - k,
{
    let nam = fids[k as int];
    match lookup_def(defs, nam) {
        Option::None => {},
        Option::Some(net) => {
            match sb_net(net, fids, empty_bst()) {
                Result::Err(e) => {
                    lemma_net_unbound(net, fids, empty_bst());
                    lemma_lookup_is_entry(defs, nam);
                },
                Result::Ok((root, rbag, st)) => {
                    let d = SDef {
                        name: nam,
                        safe: st.safe,
                        root,
                        rbag,
                        node: st.node,
                        vars: (st.vars.len() as u32) as nat,
                    };
                    lemma_book_unbound_at(fids, k + 1, defs, acc.push(d), nm);
                },
            }
        },
    }
}

/// The number of binary nodes of a tree: what compilation appends to the
/// node array.
pub open spec fn bin_count(t: STree) -> nat
    decreases t,
{
    match t {
        STree::Con { fst, snd } => 1 + bin_count(*fst) + bin_count(*snd),
        STree::Dup { fst, snd } => 1 + bin_count(*fst) + bin_count(*snd),
        STree::Opr { fst, snd } => 1 + bin_count(*fst) + bin_count(*snd),
        STree::Swi { fst, snd } => 1 + bin_count(*fst) + bin_count(*snd),
        _ => 0,
    }
}

/// The consistent variable renaming that a compile-then-readback round trip
/// performs: each variable becomes `v` plus its id in hex, ids assigned by
/// first occurrence; everything else is kept.
pub open spec fn rename_tree(t: STree, vars: Seq<Seq<u8>>) -> (STree, Seq<Seq<u8>>)
    decreases t,
{
    match t {
        STree::Var { nam } => match find_name(vars, nam) {
            Option::Some(k) => (
                STree::Var { nam: crate::readback::var_name_of(k as u32) },
                vars,
            ),
            Option::None => (
                STree::Var { nam: crate::readback::var_name_of(vars.len() as u32) },
                vars.push(nam),
            ),
        },
        STree::Ref { nam } => (STree::Ref { nam }, vars),
        STree::Era => (STree::Era, vars),
        STree::Num { val } => (STree::Num { val }, vars),
        STree::Con { fst, snd } => {
            let (f2, v1) = rename_tree(*fst, vars);
            let (s2, v2) = rename_tree(*snd, v1);
            (STree::Con { fst: Box::new(f2), snd: Box::new(s2) }, v2)
        },
        STree::Dup { fst, snd } => {
            let (f2, v1) = rename_tree(*fst, vars);
            let (s2, v2) = rename_tree(*snd, v1);
            (STree::Dup { fst: Box::new(f2), snd: Box::new(s2) }, v2)
        },
        STree::Opr { fst, snd } => {
            let (f2, v1) = rename_tree(*fst, vars);
            let (s2, v2) = rename_tree(*snd, v1);
            (STree::Opr { fst: Box::new(f2), snd: Box::new(s2) }, v2)
        },
        STree::Swi { fst, snd } => {
            let (f2, v1) = rename_tree(*fst, vars);
            let (s2, v2) = rename_tree(*snd, v1);
            (STree::Swi { fst: Box::new(f2), snd: Box::new(s2) }, v2)
        },
    }
}

proof fn lemma_find_name_index(names: Seq<Seq<u8>>, nam: Seq<u8>)
    requires
        find_name(names, nam).is_some(),
    ensures
        find_name(names, nam)->Some_0 < names.len(),
        names[find_name(names, nam)->Some_0 as int] == nam,
    decreases names.len(),
{
    if names.len() > 0 && names[0] != nam {
        lemma_find_name_index(names.drop_first(), nam);
    }
}

/// What one tree's compilation does to the state: it appends exactly its
/// binary-node count, never touches earlier slots, only extends the variable
/// list, and hands back a port that points into its own freshly written
/// range.
proof fn lemma_sb_tree_shape(t: STree, fids: Seq<Seq<u8>>, st: BSt)
    ensures
        sb_tree(t, fids, st).is_ok() ==> {
            let (p, st2) = sb_tree(t, fids, st)->Ok_0;
            &&& st2.node.len() == st.node.len() + bin_count(t)
            &&& st2.node.subrange(0, st.node.len() as int) == st.node
            &&& st.vars.len() <= st2.vars.len()
            &&& st2.vars.subrange(0, st.vars.len() as int) == st.vars
        },
    decreases t,
{
    match t {
        STree::Con { fst, snd } => {
            let stq = st;
            let idx = stq.node.len();
            let st0 = BSt { node: stq.node.push(crate::compile::zero_pair()), ..stq };
            lemma_sb_tree_shape(*fst, fids, st0);
            if sb_tree(*fst, fids, st0).is_ok() {
                let (p1, st1) = sb_tree(*fst, fids, st0)->Ok_0;
                lemma_sb_tree_shape(*snd, fids, st1);
                if sb_tree(*snd, fids, st1).is_ok() {
                    let (p2, st2) = sb_tree(*snd, fids, st1)->Ok_0;
                    let stf = sb_tree(t, fids, st)->Ok_0.1;
                    assert(stf.node == st2.node.update(
                        idx as int,
                        crate::graph::Pair { fst: p1, snd: p2 },
                    ));
                    assert forall|m: int| 0 <= m < st.node.len() implies stf.node[m]
                        == st.node[m] by {
                        assert(st1.node.subrange(0, st0.node.len() as int)[m] == st1.node[m]);
                        assert(st2.node.subrange(0, st1.node.len() as int)[m] == st2.node[m]);
                    }
                    assert(stf.node.subrange(0, st.node.len() as int) =~= st.node);
                    assert forall|m: int| 0 <= m < st.vars.len() implies stf.vars[m]
                        == st.vars[m] by {
                        assert(st1.vars.subrange(0, st0.vars.len() as int)[m] == st1.vars[m]);
                        assert(st2.vars.subrange(0, st1.vars.len() as int)[m] == st2.vars[m]);
                    }
                    assert(stf.vars.subrange(0, st.vars.len() as int) =~= st.vars);
                }
            }
        },
        STree::Dup { fst, snd } => {
            let stq = BSt { safe: false, ..st };
            let idx = stq.node.len();
            let st0 = BSt { node: stq.node.push(crate::compile::zero_pair()), ..stq };
            lemma_sb_tree_shape(*fst, fids, st0);
            if sb_tree(*fst, fids, st0).is_ok() {
                let (p1, st1) = sb_tree(*fst, fids, st0)->Ok_0;
                lemma_sb_tree_shape(*snd, fids, st1);
                if sb_tree(*snd, fids, st1).is_ok() {
                    let (p2, st2) = sb_tree(*snd, fids, st1)->Ok_0;
                    let stf = sb_tree(t, fids, st)->Ok_0.1;
                    assert(stf.node == st2.node.update(
                        idx as int,
                        crate::graph::Pair { fst: p1, snd: p2 },
                    ));
                    assert forall|m: int| 0 <= m < st.node.len() implies stf.node[m]
                        == st.node[m] by {
                        assert(st1.node.subrange(0, st0.node.len() as int)[m] == st1.node[m]);
                        assert(st2.node.subrange(0, st1.node.len() as int)[m] == st2.node[m]);
                    }
                    assert(stf.node.subrange(0, st.node.len() as int) =~= st.node);
                    assert forall|m: int| 0 <= m < st.vars.len() implies stf.vars[m]
                        == st.vars[m] by {
                        assert(st1.vars.subrange(0, st0.vars.len() as int)[m] == st1.vars[m]);
                        assert(st2.vars.subrange(0, st1.vars.len() as int)[m] == st2.vars[m]);
                    }
                    assert(stf.vars.subrange(0, st.vars.len() as int) =~= st.vars);
                }
            }
        },
        STree::Opr { fst, snd } => {
            let stq = st;
            let idx = stq.node.len();
            let st0 = BSt { node: stq.node.push(crate::compile::zero_pair()), ..stq };
            lemma_sb_tree_shape(*fst, fids, st0);
            if sb_tree(*fst, fids, st0).is_ok() {
                let (p1, st1) = sb_tree(*fst, fids, st0)->Ok_0;
                lemma_sb_tree_shape(*snd, fids, st1);
                if sb_tree(*snd, fids, st1).is_ok() {
                    let (p2, st2) = sb_tree(*snd, fids, st1)->Ok_0;
                    let stf = sb_tree(t, fids, st)->Ok_0.1;
                    assert(stf.node == st2.node.update(
                        idx as int,
                        crate::graph::Pair { fst: p1, snd: p2 },
                    ));
                    assert forall|m: int| 0 <= m < st.node.len() implies stf.node[m]
                        == st.node[m] by {
                        assert(st1.node.subrange(0, st0.node.len() as int)[m] == st1.node[m]);
                        assert(st2.node.subrange(0, st1.node.len() as int)[m] == st2.node[m]);
                    }
                    assert(stf.node.subrange(0, st.node.len() as int) =~= st.node);
                    assert forall|m: int| 0 <= m < st.vars.len() implies stf.vars[m]
                        == st.vars[m] by {
                        assert(st1.vars.subrange(0, st0.vars.len() as int)[m] == st1.vars[m]);
                        assert(st2.vars.subrange(0, st1.vars.len() as int)[m] == st2.vars[m]);
                    }
                    assert(stf.vars.subrange(0, st.vars.len() as int) =~= st.vars);
                }
            }
        },
        STree::Swi { fst, snd } => {
            let stq = st;
            let idx = stq.node.len();
            let st0 = BSt { node: stq.node.push(crate::compile::zero_pair()), ..stq };
            lemma_sb_tree_shape(*fst, fids, st0);
            if sb_tree(*fst, fids, st0).is_ok() {
                let (p1, st1) = sb_tree(*fst, fids, st0)->Ok_0;
                lemma_sb_tree_shape(*snd, fids, st1);
                if sb_tree(*snd, fids, st1).is_ok() {
                    let (p2, st2) = sb_tree(*snd, fids, st1)->Ok_0;
                    let stf = sb_tree(t, fids, st)->Ok_0.1;
                    assert(stf.node == st2.node.update(
                        idx as int,
                        crate::graph::Pair { fst: p1, snd: p2 },
                    ));
                    assert forall|m: int| 0 <= m < st.node.len() implies stf.node[m]
                        == st.node[m] by {
                        assert(st1.node.subrange(0, st0.node.len() as int)[m] == st1.node[m]);
                        assert(st2.node.subrange(0, st1.node.len() as int)[m] == st2.node[m]);
                    }
                    assert(stf.node.subrange(0, st.node.len() as int) =~= st.node);
                    assert forall|m: int| 0 <= m < st.vars.len() implies stf.vars[m]
                        == st.vars[m] by {
                        assert(st1.vars.subrange(0, st0.vars.len() as int)[m] == st1.vars[m]);
                        assert(st2.vars.subrange(0, st1.vars.len() as int)[m] == st2.vars[m]);
                    }
                    assert(stf.vars.subrange(0, st.vars.len() as int) =~= st.vars);
                }
            }
        },
        _ => {
            if sb_tree(t, fids, st).is_ok() {
                let st2 = sb_tree(t, fids, st)->Ok_0.1;
                assert(st2.vars.subrange(0, st.vars.len() as int) =~= st.vars);
                assert(st2.node.subrange(0, st.node.len() as int) =~= st.node);
            }
        },
    }
}

/// The number of subterms of a tree.
pub open spec fn tree_size(t: STree) -> nat
    decreases t,
{
    match t {
        STree::Con { fst, snd } => 1 + tree_size(*fst) + tree_size(*snd),
        STree::Dup { fst, snd } => 1 + tree_size(*fst) + tree_size(*snd),
        STree::Opr { fst, snd } => 1 + tree_size(*fst) + tree_size(*snd),
        STree::Swi { fst, snd } => 1 + tree_size(*fst) + tree_size(*snd),
        _ => 1,
    }
}

proof fn lemma_size_bin(t: STree)
    ensures
        tree_size(t) == 2 * bin_count(t) + 1,
    decreases t,
{
    match t {
        STree::Con { fst, snd } => {
            lemma_size_bin(*fst);
            lemma_size_bin(*snd);
        },
        STree::Dup { fst, snd } => {
            lemma_size_bin(*fst);
            lemma_size_bin(*snd);
        },
        STree::Opr { fst, snd } => {
            lemma_size_bin(*fst);
            lemma_size_bin(*snd);
        },
        STree::Swi { fst, snd } => {
            lemma_size_bin(*fst);
            lemma_size_bin(*snd);
        },
        _ => {},
    }
}

/// The heart of the compile/readback inverse: reading the compiled port back
/// from any node array that agrees with the compiler's output on the freshly
/// written range yields the original tree under the consistent renaming, as
/// long as every variable slot of the snapshot is unbound.
#[verifier::rlimit(100)]
#[verifier::spinoff_prover]
proof fn lemma_rb_inverse_tree(
    t: STree,
    fids: Seq<Seq<u8>>,
    st: BSt,
    fin: Seq<crate::graph::Pair>,
    slots: Seq<Option<crate::graph::Port>>,
    fuel: nat,
)
    requires
        sb_tree(t, fids, st).is_ok(),
        st.node.len() + bin_count(t) <= fin.len(),
        fin.len() < 0x100000000,
        fids.len() < 0x100000000,
        st.vars.len() + tree_size(t) < 0x100000000,
        forall|m: int|
            st.node.len() <= m < st.node.len() + bin_count(t) ==> fin[m] == sb_tree(
                t,
                fids,
                st,
            )->Ok_0.1.node[m],
        forall|m: int| 0 <= m < slots.len() ==> (#[trigger] slots[m]).is_none(),
        fuel >= tree_size(t) + 1,
    ensures
        ({
            let (p, st2) = sb_tree(t, fids, st)->Ok_0;
            let (rt, v2) = rename_tree(t, st.vars);
            &&& crate::readback::sp_rb(fin, slots, fids, p, fuel) == Option::Some(rt)
            &&& st2.vars == v2
            &&& st2.vars.len() <= st.vars.len() + tree_size(t)
        }),
    decreases t,
{
    lemma_sb_tree_shape(t, fids, st);
    let (p, stf) = sb_tree(t, fids, st)->Ok_0;
    match t {
        STree::Var { nam } => {
            if find_name(st.vars, nam).is_some() {
                lemma_find_name_index(st.vars, nam);
            }
            assert(crate::readback::enter_once(slots, p) == p);
        },
        STree::Ref { nam } => {
            lemma_find_name_index(fids, nam);
        },
        STree::Era => {},
        STree::Num { val } => {},
        STree::Con { fst, snd } => {
            let stq = st;
            let idx = st.node.len();
            let st0 = BSt { node: stq.node.push(crate::compile::zero_pair()), ..stq };
            let (p1, st1) = sb_tree(*fst, fids, st0)->Ok_0;
            let (p2, st2) = sb_tree(*snd, fids, st1)->Ok_0;
            lemma_sb_tree_shape(*fst, fids, st0);
            lemma_sb_tree_shape(*snd, fids, st1);
            assert(stf.node == st2.node.update(
                idx as int,
                crate::graph::Pair { fst: p1, snd: p2 },
            ));
            assert forall|m: int|
                st0.node.len() <= m < st0.node.len() + bin_count(*fst) implies fin[m]
                == st1.node[m] by {
                assert(st2.node.subrange(0, st1.node.len() as int)[m] == st2.node[m]);
                assert(fin[m] == stf.node[m]);
            }
            lemma_rb_inverse_tree(*fst, fids, st0, fin, slots, (fuel - 1) as nat);
            assert forall|m: int|
                st1.node.len() <= m < st1.node.len() + bin_count(*snd) implies fin[m]
                == st2.node[m] by {
                assert(fin[m] == stf.node[m]);
            }
            lemma_rb_inverse_tree(*snd, fids, st1, fin, slots, (fuel - 1) as nat);
            assert(fin[idx as int] == stf.node[idx as int]);
            assert(stf.node[idx as int] == crate::graph::Pair { fst: p1, snd: p2 });
        },
        STree::Dup { fst, snd } => {
            let stq = BSt { safe: false, ..st };
            let idx = st.node.len();
            let st0 = BSt { node: stq.node.push(crate::compile::zero_pair()), ..stq };
            let (p1, st1) = sb_tree(*fst, fids, st0)->Ok_0;
            let (p2, st2) = sb_tree(*snd, fids, st1)->Ok_0;
            lemma_sb_tree_shape(*fst, fids, st0);
            lemma_sb_tree_shape(*snd, fids, st1);
            assert(stf.node == st2.node.update(
                idx as int,
                crate::graph::Pair { fst: p1, snd: p2 },
            ));
            assert forall|m: int|
                st0.node.len() <= m < st0.node.len() + bin_count(*fst) implies fin[m]
                == st1.node[m] by {
                assert(st2.node.subrange(0, st1.node.len() as int)[m] == st2.node[m]);
                assert(fin[m] == stf.node[m]);
            }
            lemma_rb_inverse_tree(*fst, fids, st0, fin, slots, (fuel - 1) as nat);
            assert forall|m: int|
                st1.node.len() <= m < st1.node.len() + bin_count(*snd) implies fin[m]
                == st2.node[m] by {
                assert(fin[m] == stf.node[m]);
            }
            lemma_rb_inverse_tree(*snd, fids, st1, fin, slots, (fuel - 1) as nat);
            assert(fin[idx as int] == stf.node[idx as int]);
            assert(stf.node[idx as int] == crate::graph::Pair { fst: p1, snd: p2 });
        },
        STree::Opr { fst, snd } => {
            let stq = st;
            let idx = st.node.len();
            let st0 = BSt { node: stq.node.push(crate::compile::zero_pair()), ..stq };
            let (p1, st1) = sb_tree(*fst, fids, st0)->Ok_0;
            let (p2, st2) = sb_tree(*snd, fids, st1)->Ok_0;
            lemma_sb_tree_shape(*fst, fids, st0);
            lemma_sb_tree_shape(*snd, fids, st1);
            assert(stf.node == st2.node.update(
                idx as int,
                crate::graph::Pair { fst: p1, snd: p2 },
            ));
            assert forall|m: int|
                st0.node.len() <= m < st0.node.len() + bin_count(*fst) implies fin[m]
                == st1.node[m] by {
                assert(st2.node.subrange(0, st1.node.len() as int)[m] == st2.node[m]);
                assert(fin[m] == stf.node[m]);
            }
            lemma_rb_inverse_tree(*fst, fids, st0, fin, slots, (fuel - 1) as nat);
            assert forall|m: int|
                st1.node.len() <= m < st1.node.len() + bin_count(*snd) implies fin[m]
                == st2.node[m] by {
                assert(fin[m] == stf.node[m]);
            }
            lemma_rb_inverse_tree(*snd, fids, st1, fin, slots, (fuel - 1) as nat);
            assert(fin[idx as int] == stf.node[idx as int]);
            assert(stf.node[idx as int] == crate::graph::Pair { fst: p1, snd: p2 });
        },
        STree::Swi { fst, snd } => {
            let stq = st;
            let idx = st.node.len();
            let st0 = BSt { node: stq.node.push(crate::compile::zero_pair()), ..stq };
            let (p1, st1) = sb_tree(*fst, fids, st0)->Ok_0;
            let (p2, st2) = sb_tree(*snd, fids, st1)->Ok_0;
            lemma_sb_tree_shape(*fst, fids, st0);
            lemma_sb_tree_shape(*snd, fids, st1);
            assert(stf.node == st2.node.update(
                idx as int,
                crate::graph::Pair { fst: p1, snd: p2 },
            ));
            assert forall|m: int|
                st0.node.len() <= m < st0.node.len() + bin_count(*fst) implies fin[m]
                == st1.node[m] by {
                assert(st2.node.subrange(0, st1.node.len() as int)[m] == st2.node[m]);
                assert(fin[m] == stf.node[m]);
            }
            lemma_rb_inverse_tree(*fst, fids, st0, fin, slots, (fuel - 1) as nat);
            assert forall|m: int|
                st1.node.len() <= m < st1.node.len() + bin_count(*snd) implies fin[m]
                == st2.node[m] by {
                assert(fin[m] == stf.node[m]);
            }
            lemma_rb_inverse_tree(*snd, fids, st1, fin, slots, (fuel - 1) as nat);
            assert(fin[idx as int] == stf.node[idx as int]);
            assert(stf.node[idx as int] == crate::graph::Pair { fst: p1, snd: p2 });
        },
    }
}

/// The compile/readback inverse law: compiling a net with an empty
/// interaction list and reading the root port straight back from the
/// resulting node array, with every variable slot unbound, yields the
/// original root tree up to the consistent variable renaming.
pub proof fn lemma_compile_readback_inverse(
    n: SNet,
    fids: Seq<Seq<u8>>,
    slots: Seq<Option<crate::graph::Port>>,
)
    requires
        n.rbag.len() == 0,
        sb_net(n, fids, empty_bst()).is_ok(),
        fids.len() < 0x100000000,
        tree_size(n.root) < 0x80000000,
        forall|m: int| 0 <= m < slots.len() ==> (#[trigger] slots[m]).is_none(),
        slots.len() + 2 * tree_size(n.root) + 2 <= u64::MAX,
    ensures
        ({
            let (root, rbag, st) = sb_net(n, fids, empty_bst())->Ok_0;
            crate::readback::sp_rb(
                st.node,
                slots,
                fids,
                root,
                crate::readback::rb_fuel(st.node, slots),
            ) == Option::Some(rename_tree(n.root, Seq::empty()).0)
        }),
{
    let (p, stf) = sb_tree(n.root, fids, empty_bst())->Ok_0;
    lemma_sb_tree_shape(n.root, fids, empty_bst());
    lemma_size_bin(n.root);
    let fuel = crate::readback::rb_fuel(stf.node, slots);
    assert(fuel >= tree_size(n.root) + 1);
    lemma_rb_inverse_tree(n.root, fids, empty_bst(), stf.node, slots, fuel);
}

proof fn lemma_dec_of_digits(v: nat)
    ensures
        forall|m: int|
            0 <= m < crate::lex::dec_of(v).len() ==> crate::lex::is_dec_digit(
                #[trigger] crate::lex::dec_of(v)[m],
            ),
        crate::lex::dec_of(v).len() >= 1,
    decreases v,
{
    if v >= 10 {
        lemma_dec_of_digits(v / 10);
    }
}

/// The decimal rendering of `v` reads back as `v`.
proof fn lemma_radix_val_dec(v: nat)
    ensures
        crate::parse::radix_val(crate::lex::dec_of(v), 10) == Option::Some(v),
    decreases v,
{
    let d = crate::lex::dec_of(v);
    if v < 10 {
        assert(d.drop_last() =~= Seq::<u8>::empty());
    } else {
        lemma_radix_val_dec(v / 10);
        assert(d.drop_last() =~= crate::lex::dec_of(v / 10));
        assert(d.last() == (48 + v % 10) as u8);
    }
}

/// The unsigned-integer leg of the parse/show round trip: rendering an
/// unsigned 24-bit value and reading the rendering back as a literal gives
/// the same packed value, consuming the whole rendering.
pub proof fn lemma_u24_show_parse(v: u32)
    requires
        v < 0x1000000,
    ensures
        ({
            let text = show_numb(u24_numb(v));
            crate::parse::sp_numb_lit(text, 0) == Option::Some((u24_numb(v), text.len()))
        }),
{
    lemma_u24_exact(v);
    let text = show_numb(u24_numb(v));
    assert(text == crate::lex::dec_of(v as nat));
    lemma_dec_of_digits(v as nat);
    // the whole rendering is one run of literal bytes
    lemma_scan_all_digits(text, 0);
    assert(text.subrange(0, text.len() as int) =~= text);
    // digits hold no float marker, sign, or radix prefix
    assert(!crate::parse::lit_is_float(text)) by {
        if crate::parse::has_byte(text, '.' as u8) {
            let k = choose|k: int| 0 <= k < text.len() && text[k] == '.' as u8;
            assert(crate::lex::is_dec_digit(text[k]));
        }
        if crate::parse::has_sub(text, seq!['i' as u8, 'n' as u8, 'f' as u8]) {
            let k = choose|k: int|
                0 <= k && k + 3 <= text.len() && #[trigger] text.subrange(k, k + 3) == seq![
                    'i' as u8,
                    'n' as u8,
                    'f' as u8,
                ];
            assert(text.subrange(k, k + 3)[0] == text[k]);
            assert(crate::lex::is_dec_digit(text[k]));
        }
        if crate::parse::has_sub(text, seq!['N' as u8, 'a' as u8, 'N' as u8]) {
            let k = choose|k: int|
                0 <= k && k + 3 <= text.len() && #[trigger] text.subrange(k, k + 3) == seq![
                    'N' as u8,
                    'a' as u8,
                    'N' as u8,
                ];
            assert(text.subrange(k, k + 3)[0] == text[k]);
            assert(crate::lex::is_dec_digit(text[k]));
        }
    };
    // and the decimal radix applies: no 0x / 0b prefix fits a digit run
    assert(!crate::parse::sp_starts_with(text, 0, seq!['0' as u8, 'x' as u8])) by {
        if crate::parse::sp_starts_with(text, 0, seq!['0' as u8, 'x' as u8]) {
            assert(text.subrange(0, 2)[1] == text[1]);
            assert(crate::lex::is_dec_digit(text[1]));
        }
    };
    assert(!crate::parse::sp_starts_with(text, 0, seq!['0' as u8, 'b' as u8])) by {
        if crate::parse::sp_starts_with(text, 0, seq!['0' as u8, 'b' as u8]) {
            assert(text.subrange(0, 2)[1] == text[1]);
            assert(crate::lex::is_dec_digit(text[1]));
        }
    };
    lemma_radix_val_dec(v as nat);
    assert(crate::parse::sp_int(text) == Option::Some(v as u64));
    assert((v as u64) as u32 == v && u24_numb((v as u64) as u32) == u24_numb(v));
}

/// A run of decimal digits scans to its end.
proof fn lemma_scan_all_digits(s: Seq<u8>, i: nat)
    requires
        i <= s.len(),
        forall|m: int| 0 <= m < s.len() ==> crate::lex::is_dec_digit(#[trigger] s[m]),
    ensures
        crate::parse::scan_lit(s, i) == s.len(),
    decreases s.len() - i,
{
    if i < s.len() {
        lemma_scan_all_digits(s, i + 1);
    }
}

/// A successful lookup returns the net of some entry.
proof fn lemma_lookup_is_entry(defs: Seq<(Seq<u8>, SNet)>, nam: Seq<u8>)
    requires
        lookup_def(defs, nam).is_some(),
    ensures
        exists|j: int|
            0 <= j < defs.len() && (#[trigger] defs[j]).1 == lookup_def(defs, nam)->Some_0,
    decreases defs.len(),
{
    if defs.len() > 0 && defs[0].0 != nam {
        lemma_lookup_is_entry(defs.drop_first(), nam);
        let j = choose|j: int|
            0 <= j < defs.drop_first().len() && (#[trigger] defs.drop_first()[j]).1 == lookup_def(
                defs.drop_first(),
                nam,
            )->Some_0;
        assert(defs[j + 1].1 == lookup_def(defs, nam)->Some_0);
    }
}

} // verus!
