//! The abstract syntax: trees, nets and books, and their exact textual
//! rendering.

use vstd::prelude::*;

use crate::lex::push_all;
use crate::numb::{show_numb, Numb};

verus! {

/// A term: variables, references, erasers, numbers, and the four binary
/// node kinds.
#[derive(PartialEq, Eq, Debug, Hash)]
pub enum Tree {
    Var { nam: Vec<u8> },
    Ref { nam: Vec<u8> },
    Era,
    Num { val: Numb },
    Con { fst: Box<Tree>, snd: Box<Tree> },
    Dup { fst: Box<Tree>, snd: Box<Tree> },
    Opr { fst: Box<Tree>, snd: Box<Tree> },
    Swi { fst: Box<Tree>, snd: Box<Tree> },
}

/// A pending interaction: two trees, optionally marked eligible for parallel
/// reduction.
pub type Redex = (bool, Tree, Tree);

/// One definition's body: a root term plus its pending interactions.
#[derive(PartialEq, Eq, Debug, Hash)]
pub struct Net {
    pub root: Tree,
    pub rbag: Vec<Redex>,
}

/// A program: definitions ordered by name, each name at most once.
#[derive(PartialEq, Eq, Debug, Hash)]
pub struct Book {
    pub defs: Vec<(Vec<u8>, Net)>,
}

/// Strict lexicographic (byte-wise) order on names.
pub open spec fn lex_lt(a: Seq<u8>, b: Seq<u8>) -> bool
    decreases a.len(),
{
    if b.len() == 0 {
        false
    } else if a.len() == 0 {
        true
    } else if a[0] < b[0] {
        true
    } else if a[0] > b[0] {
        false
    } else {
        lex_lt(a.subrange(1, a.len() as int), b.subrange(1, b.len() as int))
    }
}

impl Book {
    /// Names are strictly increasing, so each occurs at most once.
    pub open spec fn wf(self) -> bool {
        forall|i: int, j: int|
            0 <= i < j < self.defs@.len() ==> lex_lt(self.defs@[i].0@, self.defs@[j].0@)
    }
}

/// The exact rendering of a tree, mirroring its parse tokens.
pub open spec fn show_tree(t: Tree) -> Seq<u8>
    decreases t,
{
    match t {
        Tree::Var { nam } => nam@,
        Tree::Ref { nam } => seq!['@' as u8] + nam@,
        Tree::Era => seq!['*' as u8],
        Tree::Num { val } => show_numb(val.0),
        Tree::Con { fst, snd } => seq!['(' as u8] + show_tree(*fst) + seq![' ' as u8] + show_tree(
            *snd,
        ) + seq![')' as u8],
        Tree::Dup { fst, snd } => seq!['{' as u8] + show_tree(*fst) + seq![' ' as u8] + show_tree(
            *snd,
        ) + seq!['}' as u8],
        Tree::Opr { fst, snd } => seq!['$' as u8, '(' as u8] + show_tree(*fst) + seq![' ' as u8]
            + show_tree(*snd) + seq![')' as u8],
        Tree::Swi { fst, snd } => seq!['?' as u8, '(' as u8] + show_tree(*fst) + seq![' ' as u8]
            + show_tree(*snd) + seq![')' as u8],
    }
}

/// ` &` then `!` or a space, the left tree, ` ~ `, the right tree.
pub open spec fn show_redex(r: Redex) -> Seq<u8> {
    seq![' ' as u8, '&' as u8] + (if r.0 {
        seq!['!' as u8]
    } else {
        seq![' ' as u8]
    }) + show_tree(r.1) + seq![' ' as u8, '~' as u8, ' ' as u8] + show_tree(r.2)
}

pub open spec fn show_redexes(rs: Seq<Redex>) -> Seq<u8>
    decreases rs.len(),
{
    if rs.len() == 0 {
        Seq::empty()
    } else {
        show_redexes(rs.drop_last()) + show_redex(rs.last())
    }
}

/// The root, then every pending interaction in order.
pub open spec fn show_net(n: Net) -> Seq<u8> {
    show_tree(n.root) + show_redexes(n.rbag@)
}

pub open spec fn show_book_entries(defs: Seq<(Vec<u8>, Net)>) -> Seq<u8>
    decreases defs.len(),
{
    if defs.len() == 0 {
        Seq::empty()
    } else {
        show_book_entries(defs.drop_last()) + show_book_entry(defs.last())
    }
}

/// One `@name = <net>` line.
pub open spec fn show_book_entry(d: (Vec<u8>, Net)) -> Seq<u8> {
    seq!['@' as u8] + d.0@ + seq![' ' as u8, '=' as u8, ' ' as u8] + show_net(d.1) + seq![
        '\n' as u8,
    ]
}

pub open spec fn show_book(b: Book) -> Seq<u8> {
    show_book_entries(b.defs@)
}

impl Tree {
    /// Renders the tree exactly as the parser reads it back.
    pub fn show(&self) -> (r: Vec<u8>)
        ensures
            r@ == show_tree(*self),
        decreases *self,
    {
        match self {
            Tree::Var { nam } => {
                let mut out: Vec<u8> = Vec::new();
                push_all(&mut out, nam.as_slice());
                proof {
                    assert(out@ =~= show_tree(*self));
                }
                out
            },
            Tree::Ref { nam } => {
                let mut out: Vec<u8> = Vec::new();
                out.push('@' as u8);
                push_all(&mut out, nam.as_slice());
                proof {
                    assert(out@ =~= show_tree(*self));
                }
                out
            },
            Tree::Era => {
                let mut out: Vec<u8> = Vec::new();
                out.push('*' as u8);
                proof {
                    assert(out@ =~= show_tree(*self));
                }
                out
            },
            Tree::Num { val } => {
                let out = val.show();
                out
            },
            Tree::Con { fst, snd } => {
                let mut out: Vec<u8> = Vec::new();
                out.push('(' as u8);
                let a = fst.show();
                push_all(&mut out, a.as_slice());
                out.push(' ' as u8);
                let b = snd.show();
                push_all(&mut out, b.as_slice());
                out.push(')' as u8);
                proof {
                    assert(out@ =~= show_tree(*self));
                }
                out
            },
            Tree::Dup { fst, snd } => {
                let mut out: Vec<u8> = Vec::new();
                out.push('{' as u8);
                let a = fst.show();
                push_all(&mut out, a.as_slice());
                out.push(' ' as u8);
                let b = snd.show();
                push_all(&mut out, b.as_slice());
                out.push('}' as u8);
                proof {
                    assert(out@ =~= show_tree(*self));
                }
                out
            },
            Tree::Opr { fst, snd } => {
                let mut out: Vec<u8> = Vec::new();
                out.push('$' as u8);
                out.push('(' as u8);
                let a = fst.show();
                push_all(&mut out, a.as_slice());
                out.push(' ' as u8);
                let b = snd.show();
                push_all(&mut out, b.as_slice());
                out.push(')' as u8);
                proof {
                    assert(out@ =~= show_tree(*self));
                }
                out
            },
            Tree::Swi { fst, snd } => {
                let mut out: Vec<u8> = Vec::new();
                out.push('?' as u8);
                out.push('(' as u8);
                let a = fst.show();
                push_all(&mut out, a.as_slice());
                out.push(' ' as u8);
                let b = snd.show();
                push_all(&mut out, b.as_slice());
                out.push(')' as u8);
                proof {
                    assert(out@ =~= show_tree(*self));
                }
                out
            },
        }
    }
}

impl Net {
    /// Renders the root, then each pending interaction.
    pub fn show(&self) -> (r: Vec<u8>)
        ensures
            r@ == show_net(*self),
    {
        let mut out = self.root.show();
        let mut i: usize = 0;
        while i < self.rbag.len()
            invariant
                i <= self.rbag@.len(),
                out@ == show_tree(self.root) + show_redexes(self.rbag@.subrange(0, i as int)),
            decreases self.rbag@.len() - i,
        {
            let ghost pre = self.rbag@.subrange(0, i as int);
            out.push(' ' as u8);
            out.push('&' as u8);
            let rx = &self.rbag[i];
            if rx.0 {
                out.push('!' as u8);
            } else {
                out.push(' ' as u8);
            }
            let a = rx.1.show();
            push_all(&mut out, a.as_slice());
            out.push(' ' as u8);
            out.push('~' as u8);
            out.push(' ' as u8);
            let b = rx.2.show();
            push_all(&mut out, b.as_slice());
            proof {
                let cur = self.rbag@.subrange(0, i + 1);
                assert(cur.drop_last() =~= pre);
                assert(cur.last() == self.rbag@[i as int]);
                assert(out@ =~= show_tree(self.root) + show_redexes(cur));
            }
            i = i + 1;
        }
        proof {
            assert(self.rbag@.subrange(0, self.rbag@.len() as int) =~= self.rbag@);
        }
        out
    }
}

impl Book {
    /// Renders one `@name = <net>` line per definition, in order.
    pub fn show(&self) -> (r: Vec<u8>)
        ensures
            r@ == show_book(*self),
    {
        let mut out: Vec<u8> = Vec::new();
        let mut i: usize = 0;
        while i < self.defs.len()
            invariant
                i <= self.defs@.len(),
                out@ == show_book_entries(self.defs@.subrange(0, i as int)),
            decreases self.defs@.len() - i,
        {
            let ghost pre = self.defs@.subrange(0, i as int);
            out.push('@' as u8);
            let d = &self.defs[i];
            push_all(&mut out, d.0.as_slice());
            out.push(' ' as u8);
            out.push('=' as u8);
            out.push(' ' as u8);
            let body = d.1.show();
            push_all(&mut out, body.as_slice());
            out.push('\n' as u8);
            proof {
                let cur = self.defs@.subrange(0, i + 1);
                assert(cur.drop_last() =~= pre);
                assert(cur.last() == self.defs@[i as int]);
                assert(out@ =~= show_book_entries(cur));
            }
            i = i + 1;
        }
        proof {
            assert(self.defs@.subrange(0, self.defs@.len() as int) =~= self.defs@);
        }
        out
    }
}

} // verus!
