//! Registration of the built-in primitive types: each type adds one
//! `LayerDefine` child per operator it supports under its own scope node,
//! each carrying a single handler child, following the well-known
//! `/core/op/<Name>` convention that the folding evaluator looks up.

use crate::ast::Type;
use crate::consume::extends;
use crate::fold::{core_op_path, find_handler, find_ld_rec, is_ld_for};
use crate::gom::{Explorer, GOM};
use crate::symbol::{Description, HandlerKind, Implementation, Symbol};
use vstd::prelude::*;

verus! {

broadcast use crate::gom::lemma_len_bound;

/// Register one operator under a type scope: a `LayerDefine` child for the
/// well-known path of `op`, carrying one handler child.
#[verifier::loop_isolation(false)]
fn register_handler(g: &mut GOM<Symbol>, ty: Explorer, op: &str, kind: HandlerKind) -> (ld:
    Explorer)
    requires
        old(g).wf(),
        ty.valid(*old(g)),
    ensures
        final(g).wf(),
        extends(*old(g), *final(g)),
        final(g).len() == old(g).len() + 2,
        ld.at == old(g).len(),
        final(g).children_of(ty.at as int) == old(g).children_of(ty.at as int).push(ld.at),
        final(g).children_of(ld.at as int) == Seq::<usize>::empty().push((ld.at + 1) as usize),
        is_ld_for(final(g).data_of(ld.at as int), op@),
        forall|other: Seq<char>|
            other != op@ ==> !is_ld_for(final(g).data_of(ld.at as int), other),
        final(g).data_of(ld.at as int + 1).spec_implementation() == Implementation::Handler(kind),
        final(g).parent_of(ld.at as int) == Some(ty.at),
        forall|i: int|
            0 <= i < old(g).len() && i != ty.at ==> final(g).node_seq()[i] == old(g).node_seq()[i],
{
    let path = core_op_path(op);
    let ghost g0 = *g;
    let ld = ty.add_child(
        g,
        Symbol::Unnamed(Description::LayerDefine(path), Implementation::Empty),
    );
    let ghost g1 = *g;
    let _ = ld.add_child(
        g,
        Symbol::Unnamed(Description::Virtual, Implementation::Handler(kind)),
    );
    proof {
        crate::consume::lemma_grow_one(g0, g1, ty.at as int, g0.len() as int);
        crate::consume::lemma_grow_one(g1, *g, ld.at as int, g1.len() as int);
        crate::consume::lemma_extends_trans(g0, g1, *g);
        assert(g.children_of(ld.at as int) =~= Seq::<usize>::empty().push((ld.at + 1) as usize));
    }
    ld
}

/// Register the built-in 32-bit integer type under `dst`: a structure node
/// named `i32` whose registered handlers fold literal arguments, unary plus
/// and minus, and addition.
pub fn load_i32(g: &mut GOM<Symbol>, dst: Explorer) -> (c: Explorer)
    requires
        old(g).wf(),
        dst.valid(*old(g)),
    ensures
        final(g).wf(),
        extends(*old(g), *final(g)),
        c.at == old(g).len(),
        c.valid(*final(g)),
        final(g).parent_of(c.at as int) == Some(dst.at),
        final(g).children_of(dst.at as int) == old(g).children_of(dst.at as int).push(c.at),
        match final(g).data_of(c.at as int) {
            Symbol::Named(nm, d, imp) => {
                &&& nm@ == "i32"@
                &&& match d {
                    Description::Structure(ts) => ts@ == seq![Type::I32],
                    _ => false,
                }
                &&& imp == Implementation::Empty
            },
            _ => false,
        },
        find_handler(*final(g), c.at as int, "Argument"@) == Some(HandlerKind::I32Argument),
        find_handler(*final(g), c.at as int, "Positive"@) == Some(HandlerKind::I32Positive),
        find_handler(*final(g), c.at as int, "Negative"@) == Some(HandlerKind::I32Negative),
        find_handler(*final(g), c.at as int, "Addition"@) == Some(HandlerKind::I32Addition),
{
    let mut layout: Vec<Type> = Vec::new();
    layout.push(Type::I32);
    let name: String = "i32".to_owned();
    let ghost g0 = *g;
    let c = dst.add_child(
        g,
        Symbol::Named(name, Description::Structure(layout), Implementation::Empty),
    );
    proof {
        crate::consume::lemma_grow_one(g0, *g, dst.at as int, g0.len() as int);
    }
    let ghost ga = *g;
    let ld_a = register_handler(g, c, "Argument", HandlerKind::I32Argument);
    let ghost gb = *g;
    let ld_p = register_handler(g, c, "Positive", HandlerKind::I32Positive);
    let ghost gc = *g;
    let ld_n = register_handler(g, c, "Negative", HandlerKind::I32Negative);
    let ghost gd = *g;
    let ld_d = register_handler(g, c, "Addition", HandlerKind::I32Addition);
    proof {
        crate::consume::lemma_extends_trans(g0, ga, gb);
        crate::consume::lemma_extends_trans(g0, gb, gc);
        crate::consume::lemma_extends_trans(g0, gc, gd);
        crate::consume::lemma_extends_trans(g0, gd, *g);
        reveal_strlit("Argument");
        reveal_strlit("Positive");
        reveal_strlit("Negative");
        reveal_strlit("Addition");
        assert("Argument"@[0] == 'A' && "Positive"@[0] == 'P' && "Negative"@[0] == 'N');
        assert("Argument"@[1] == 'r' && "Addition"@[1] == 'd' && "Positive"@[1] == 'o');
        assert("Negative"@[1] == 'e');
        assert("Argument"@ != "Positive"@);
        assert("Argument"@ != "Negative"@);
        assert("Argument"@ != "Addition"@);
        assert("Positive"@ != "Negative"@);
        assert("Positive"@ != "Addition"@);
        assert("Negative"@ != "Addition"@);
        let gfin = *g;
        assert(gfin.children_of(c.at as int) =~= seq![ld_a.at, ld_p.at, ld_n.at, ld_d.at]);
        assert(gfin.data_of(ld_a.at as int) == gb.data_of(ld_a.at as int));
        assert(gfin.data_of(ld_p.at as int) == gc.data_of(ld_p.at as int));
        assert(gfin.data_of(ld_n.at as int) == gd.data_of(ld_n.at as int));
        assert(gfin.children_of(ld_a.at as int) == gb.children_of(ld_a.at as int));
        assert(gfin.children_of(ld_p.at as int) == gc.children_of(ld_p.at as int));
        assert(gfin.children_of(ld_n.at as int) == gd.children_of(ld_n.at as int));
        assert(gfin.data_of(ld_a.at as int + 1) == gb.data_of(ld_a.at as int + 1));
        assert(gfin.data_of(ld_p.at as int + 1) == gc.data_of(ld_p.at as int + 1));
        assert(gfin.data_of(ld_n.at as int + 1) == gd.data_of(ld_n.at as int + 1));
        lemma_find_four(gfin, c.at as int, ld_a.at, ld_p.at, ld_n.at, ld_d.at);
    }
    c
}

/// With exactly the four operator registrations as children, each operator's
/// lookup lands on its own registration.
proof fn lemma_find_four(g: GOM<Symbol>, ty: int, a: usize, p: usize, n: usize, d: usize)
    requires
        g.children_of(ty) == seq![a, p, n, d],
        (a as int) < g.len() && (p as int) < g.len() && (n as int) < g.len() && (d as int)
            < g.len(),
        is_ld_for(g.data_of(a as int), "Argument"@),
        forall|o: Seq<char>| o != "Argument"@ ==> !is_ld_for(g.data_of(a as int), o),
        is_ld_for(g.data_of(p as int), "Positive"@),
        forall|o: Seq<char>| o != "Positive"@ ==> !is_ld_for(g.data_of(p as int), o),
        is_ld_for(g.data_of(n as int), "Negative"@),
        forall|o: Seq<char>| o != "Negative"@ ==> !is_ld_for(g.data_of(n as int), o),
        is_ld_for(g.data_of(d as int), "Addition"@),
        forall|o: Seq<char>| o != "Addition"@ ==> !is_ld_for(g.data_of(d as int), o),
        "Argument"@ != "Positive"@ && "Argument"@ != "Negative"@ && "Argument"@ != "Addition"@,
        "Positive"@ != "Negative"@ && "Positive"@ != "Addition"@,
        "Negative"@ != "Addition"@,
    ensures
        find_ld_rec(g, g.children_of(ty), "Argument"@) == Some(a as int),
        find_ld_rec(g, g.children_of(ty), "Positive"@) == Some(p as int),
        find_ld_rec(g, g.children_of(ty), "Negative"@) == Some(n as int),
        find_ld_rec(g, g.children_of(ty), "Addition"@) == Some(d as int),
{
    let cs = g.children_of(ty);
    assert(cs[0] == a && cs[1] == p && cs[2] == n && cs[3] == d);
    assert(cs.drop_first() =~= seq![p, n, d]);
    assert(seq![p, n, d].drop_first() =~= seq![n, d]);
    assert(seq![n, d].drop_first() =~= seq![d]);
    assert(seq![d].drop_first() =~= Seq::<usize>::empty());
    assert(find_ld_rec(g, cs, "Argument"@) == Some(a as int));
    assert(find_ld_rec(g, cs, "Positive"@) == find_ld_rec(g, seq![p, n, d], "Positive"@));
    assert(find_ld_rec(g, cs, "Negative"@) == find_ld_rec(g, seq![p, n, d], "Negative"@));
    assert(find_ld_rec(g, seq![p, n, d], "Negative"@) == find_ld_rec(g, seq![n, d], "Negative"@));
    assert(find_ld_rec(g, cs, "Addition"@) == find_ld_rec(g, seq![p, n, d], "Addition"@));
    assert(find_ld_rec(g, seq![p, n, d], "Addition"@) == find_ld_rec(g, seq![n, d], "Addition"@));
    assert(find_ld_rec(g, seq![n, d], "Addition"@) == find_ld_rec(g, seq![d], "Addition"@));
}

impl crate::consume::Parser {
    /// Register the built-in primitive types under the root scope.
    pub fn use_core(&mut self) -> (c: Explorer)
        requires
            old(self).wf(),
        ensures
            final(self).wf(),
            extends(old(self).root, final(self).root),
            c.at == old(self).root.len(),
            c.valid(final(self).root),
            final(self).root.parent_of(c.at as int) == Some(0usize),
            match final(self).root.data_of(c.at as int) {
                Symbol::Named(nm, _, _) => nm@ == "i32"@,
                _ => false,
            },
            find_handler(final(self).root, c.at as int, "Argument"@) == Some(
                HandlerKind::I32Argument,
            ),
            find_handler(final(self).root, c.at as int, "Positive"@) == Some(
                HandlerKind::I32Positive,
            ),
            find_handler(final(self).root, c.at as int, "Negative"@) == Some(
                HandlerKind::I32Negative,
            ),
            find_handler(final(self).root, c.at as int, "Addition"@) == Some(
                HandlerKind::I32Addition,
            ),
    {
        let root = Explorer::new(0);
        load_i32(&mut self.root, root)
    }
}

} // verus!
