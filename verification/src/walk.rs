//! The walk over the expressions of one scope. It goes through a body in
//! document order, enters statements and expressions, and stops at whatever
//! is a scope of its own.

use crate::kind::{NodeKind, SyntaxKind};
use crate::tree::{
    effect_of, encloses, first_child, in_subtree, lemma_first_child, well_formed, Child,
    Element, SyntaxTree,
};
use vstd::prelude::*;

verus! {

/// A closure, or an effect block qualified `async`, `try` or `const`: the
/// walk reports it and does not enter it.
pub open spec fn is_boundary(t: Seq<Element>, n: int) -> bool {
    t[n].kind == SyntaxKind::Node(NodeKind::ClosureExpr) || (t[n].kind == SyntaxKind::Node(
        NodeKind::EffectExpr,
    ) && effect_of(t, n).opens_scope())
}

/// The walk enters every child of `a`: `a` is a node that is no item, no
/// `let` statement and no scope of its own. An argument list, the arms of a
/// `match` and a condition are entered like any expression.
pub open spec fn descends(t: Seq<Element>, a: int) -> bool {
    match t[a].kind {
        SyntaxKind::Node(NodeKind::LetStmt) => false,
        SyntaxKind::Node(k) => !k.is_item() && !is_boundary(t, a),
        SyntaxKind::Token(_) => false,
    }
}

/// The walk, standing at `a`, goes on towards the descendant `n` of `a`. Of a
/// `let` statement it enters the initializer alone; items, closures and
/// `async`, `try` and `const` blocks are not entered; every other node is.
pub open spec fn admits(t: Seq<Element>, a: int, n: int) -> bool {
    match t[a].kind {
        SyntaxKind::Node(NodeKind::LetStmt) => match first_child(t, a, Child::Expr) {
            Some(e) => in_subtree(t, e as int, n),
            None => false,
        },
        _ => descends(t, a),
    }
}

/// The walk from `root` reports `n`: an expression below `root`, or `root`
/// itself, that stands in no item, in no closure, in no `async`, `try` or
/// `const` block, and in no part of a `let` statement but its initializer,
/// as far as these lie below `root`.
pub open spec fn visited(t: Seq<Element>, root: int, n: int) -> bool {
    &&& in_subtree(t, root, n)
    &&& t[n].kind.is_expr()
    &&& forall|a: int| root <= a && #[trigger] encloses(t, a, n) ==> admits(t, a, n)
}

/// The elements from `lo` up to `hi` that the walk from `root` reports, in
/// document order.
pub open spec fn visits_in(t: Seq<Element>, root: int, lo: int, hi: int) -> Seq<usize>
    decreases hi - lo,
{
    if hi <= lo {
        Seq::empty()
    } else {
        let rest = visits_in(t, root, lo, hi - 1);
        if visited(t, root, hi - 1) {
            rest.push((hi - 1) as usize)
        } else {
            rest
        }
    }
}

/// The expressions that the walk from `root` reports, in document order.
pub open spec fn visits(t: Seq<Element>, root: int) -> Seq<usize> {
    if 0 <= root < t.len() {
        visits_in(t, root, root, t[root].end as int)
    } else {
        Seq::empty()
    }
}

proof fn lemma_visits_split(t: Seq<Element>, root: int, lo: int, mid: int, hi: int)
    requires
        lo <= mid <= hi,
    ensures
        visits_in(t, root, lo, hi) == visits_in(t, root, lo, mid) + visits_in(t, root, mid, hi),
    decreases hi - mid,
{
    if mid < hi {
        lemma_visits_split(t, root, lo, mid, hi - 1);
        let a = visits_in(t, root, lo, mid);
        let b = visits_in(t, root, mid, hi - 1);
        if visited(t, root, hi - 1) {
            assert((a + b).push((hi - 1) as usize) =~= a + b.push((hi - 1) as usize));
        }
    } else {
        assert(visits_in(t, root, lo, mid) + Seq::<usize>::empty() =~= visits_in(
            t,
            root,
            lo,
            mid,
        ));
    }
}

proof fn lemma_visits_none(t: Seq<Element>, root: int, lo: int, hi: int)
    requires
        forall|n: int| lo <= n < hi ==> !visited(t, root, n),
    ensures
        visits_in(t, root, lo, hi) == Seq::<usize>::empty(),
    decreases hi - lo,
{
    if lo < hi {
        lemma_visits_none(t, root, lo, hi - 1);
    }
}

proof fn lemma_visits_rebase(t: Seq<Element>, root: int, other: int, lo: int, hi: int)
    requires
        forall|n: int| lo <= n < hi ==> visited(t, root, n) == visited(t, other, n),
    ensures
        visits_in(t, root, lo, hi) == visits_in(t, other, lo, hi),
    decreases hi - lo,
{
    if lo < hi {
        lemma_visits_rebase(t, root, other, lo, hi - 1);
    }
}

/// `visits_in` holds exactly the reported elements of its stretch, in
/// ascending order.
pub proof fn lemma_visits_in(t: Seq<Element>, root: int, lo: int, hi: int)
    requires
        0 <= lo,
        hi <= usize::MAX,
    ensures
        forall|i: int|
            0 <= i < visits_in(t, root, lo, hi).len() ==> {
                let n = #[trigger] visits_in(t, root, lo, hi)[i];
                lo <= n < hi && visited(t, root, n as int)
            },
        forall|i: int, j: int|
            0 <= i < j < visits_in(t, root, lo, hi).len() ==> visits_in(t, root, lo, hi)[i]
                < visits_in(t, root, lo, hi)[j],
        forall|n: int|
            lo <= n < hi && visited(t, root, n) ==> visits_in(t, root, lo, hi).contains(
                n as usize,
            ),
    decreases hi - lo,
{
    if lo < hi {
        lemma_visits_in(t, root, lo, hi - 1);
        let rest = visits_in(t, root, lo, hi - 1);
        let all = visits_in(t, root, lo, hi);
        if visited(t, root, hi - 1) {
            assert(all[rest.len() as int] == (hi - 1) as usize);
            assert forall|n: int| lo <= n < hi && visited(t, root, n) implies all.contains(
                n as usize,
            ) by {
                if n < hi - 1 {
                    let i = choose|i: int| 0 <= i < rest.len() && rest[i] == n as usize;
                    assert(all[i] == n as usize);
                }
            }
        }
    }
}

/// The walk reports `n` if and only if `visits` holds it.
pub proof fn lemma_visits(t: Seq<Element>, root: int, n: int)
    requires
        well_formed(t),
        0 <= n <= usize::MAX,
    ensures
        visits(t, root).contains(n as usize) <==> visited(t, root, n),
{
    if 0 <= root < t.len() {
        lemma_visits_in(t, root, root, t[root].end as int);
        let s = visits(t, root);
        if s.contains(n as usize) {
            let i = choose|i: int| 0 <= i < s.len() && s[i] == n as usize;
            assert(visited(t, root, s[i] as int));
        }
    }
}

/// `n` lies below `root`, or is `root`, and between the two stands no item,
/// no closure, no `async`, `try` or `const` block, and no `let` statement
/// that holds `n` elsewhere than in its initializer.
pub open spec fn in_scope(t: Seq<Element>, root: int, n: int) -> bool {
    &&& in_subtree(t, root, n)
    &&& forall|a: int|
        root <= a && #[trigger] encloses(t, a, n) ==> {
            &&& !(t[a].kind is Node && t[a].kind->Node_0.is_item())
            &&& !is_boundary(t, a)
            &&& t[a].kind == SyntaxKind::Node(NodeKind::LetStmt) ==> {
                &&& first_child(t, a, Child::Expr) is Some
                &&& in_subtree(t, first_child(t, a, Child::Expr)->Some_0 as int, n)
            }
        }
}

/// The walk reports every expression of its scope and nothing else: also an
/// expression among the arguments of a call, in the arm of a `match` or in a
/// condition.
pub proof fn lemma_visited(t: Seq<Element>, root: int, n: int)
    requires
        well_formed(t),
    ensures
        visited(t, root, n) <==> in_scope(t, root, n) && t[n].kind.is_expr(),
{
    if in_subtree(t, root, n) {
        assert forall|a: int| root <= a && #[trigger] encloses(t, a, n) implies (admits(t, a, n) <==> {
            &&& !(t[a].kind is Node && t[a].kind->Node_0.is_item())
            &&& !is_boundary(t, a)
            &&& t[a].kind == SyntaxKind::Node(NodeKind::LetStmt) ==> {
                &&& first_child(t, a, Child::Expr) is Some
                &&& in_subtree(t, first_child(t, a, Child::Expr)->Some_0 as int, n)
            }
        }) by {
            // what encloses another element is a node: a token ends where it begins
            assert(t[a].kind is Node);
        }
    }
}

/// Scope containment: whatever lies inside a closure, or inside an `async`,
/// `try` or `const` block, that stands in the walked body is not reported
/// by the walk of that body.
pub proof fn lemma_scope_containment(t: Seq<Element>, root: int, boundary: int, n: int)
    requires
        well_formed(t),
        in_subtree(t, root, boundary),
        is_boundary(t, boundary),
        encloses(t, boundary, n),
    ensures
        !visited(t, root, n),
        !visits(t, root).contains(n as usize),
{
    assert(!admits(t, boundary, n));
    lemma_visits(t, root, n);
}

/// The walks of two scopes, one nested in the other, report nothing in
/// common: what the inner walk reports lies inside the boundary, and the
/// outer walk reports nothing from there.
pub proof fn lemma_nested_scopes_apart(
    t: Seq<Element>,
    outer: int,
    boundary: int,
    inner: int,
    n: int,
)
    requires
        well_formed(t),
        in_subtree(t, outer, boundary),
        is_boundary(t, boundary),
        encloses(t, boundary, inner),
    ensures
        !(visited(t, outer, n) && visited(t, inner, n)),
{
    if visited(t, inner, n) {
        assert(encloses(t, boundary, inner));
        assert(t[inner].end <= t[boundary].end);
        assert(encloses(t, boundary, n));
        assert(!admits(t, boundary, n));
    }
}

/// Item isolation: an item that stands in the walked body, and whatever lies
/// inside it, is not reported by the walk of that body.
pub proof fn lemma_item_isolation(t: Seq<Element>, root: int, item: int, n: int)
    requires
        well_formed(t),
        in_subtree(t, root, item),
        t[item].kind is Node,
        t[item].kind->Node_0.is_item(),
        in_subtree(t, item, n),
    ensures
        !visited(t, root, n),
        !visits(t, root).contains(n as usize),
{
    if n != item {
        assert(encloses(t, item, n));
        assert(!admits(t, item, n));
    }
    lemma_visits(t, root, n);
}

impl SyntaxTree {
    /// Whether `node` is a scope of its own for the walk.
    pub fn is_boundary(&self, node: usize) -> (r: bool)
        ensures
            r == (node < self@.len() && is_boundary(self@, node as int)),
    {
        if node >= self.len() {
            return false;
        }
        match self.at(node).kind {
            SyntaxKind::Node(NodeKind::ClosureExpr) => true,
            SyntaxKind::Node(NodeKind::EffectExpr) => self.effect(node).scope(),
            _ => false,
        }
    }
}

/// Walks the expression `expr` in preorder and returns the expressions that
/// it comes by. Of a `let` statement it enters the initializer alone, it
/// passes over items, and it reports a closure or an `async`, `try` or
/// `const` block without entering it. Everything else it enters.
pub fn walk(tree: &SyntaxTree, expr: usize) -> (r: Vec<usize>)
    ensures
        r@ == visits(tree@, expr as int),
        forall|i: int| 0 <= i < r@.len() ==> r@[i] < tree@.len(),
{
    let mut out: Vec<usize> = Vec::new();
    if expr < tree.len() {
        walk_into(tree, expr, &mut out);
        proof {
            assert(out@ =~= visits(tree@, expr as int));
            lemma_visits_in(tree@, expr as int, expr as int, tree@[expr as int].end as int);
        }
    }
    out
}

fn walk_into(tree: &SyntaxTree, root: usize, out: &mut Vec<usize>)
    requires
        root < tree@.len(),
    ensures
        final(out)@ == old(out)@ + visits(tree@, root as int),
    decreases tree@[root as int].end - root,
{
    let ghost t = tree@;
    let ghost before = out@;
    let ghost r = root as int;
    let end: usize = tree.at(root).end;
    let mut pos: usize = root;
    assert(out@ =~= before + visits_in(t, r, r, pos as int));
    while pos < end
        invariant
            t == tree@,
            r == root,
            well_formed(t),
            root < t.len(),
            end == t[r].end,
            root <= pos <= end,
            out@ == before + visits_in(t, r, r, pos as int),
            forall|a: int| r <= a && #[trigger] encloses(t, a, pos as int) ==> descends(t, a),
        decreases end - pos,
    {
        let e = tree.at(pos);
        let ghost p = pos as int;
        let ghost stop = e.end as int;
        let ghost so_far = visits_in(t, r, r, p);
        proof {
            if pos > root {
                assert(encloses(t, r, p));
            }
            assert(stop <= end);
            lemma_visits_split(t, r, r, p, p + 1);
            lemma_visits_split(t, r, r, p + 1, stop);
            assert(visits_in(t, r, p, p) == Seq::<usize>::empty());
        }
        let mut enter: bool = false;
        match e.kind {
            SyntaxKind::Node(NodeKind::LetStmt) => {
                match tree.first_child(pos, Child::Expr) {
                    Some(init) => {
                        let ghost i = init as int;
                        proof {
                            lemma_first_child(t, p, Child::Expr);
                            assert(encloses(t, p, i));
                            assert(t[i].end <= stop);
                        }
                        walk_into(tree, init, out);
                        proof {
                            let last = t[i].end as int;
                            assert forall|n: int| p <= n < i implies !visited(t, r, n) by {
                                if n > p {
                                    assert(encloses(t, p, n));
                                    assert(!admits(t, p, n));
                                }
                            }
                            assert forall|n: int| last <= n < stop implies !visited(t, r, n) by {
                                assert(encloses(t, p, n));
                                assert(!admits(t, p, n));
                            }
                            assert forall|n: int| i <= n < last implies visited(t, r, n)
                                == visited(t, i, n) by {
                                if visited(t, i, n) {
                                    assert forall|a: int|
                                        r <= a && #[trigger] encloses(t, a, n) implies admits(
                                        t,
                                        a,
                                        n,
                                    ) by {
                                        if a < p {
                                            assert(encloses(t, a, p));
                                        } else if a == p {
                                        } else if a < i {
                                            assert(encloses(t, a, i));
                                        }
                                    }
                                }
                            }
                            lemma_visits_none(t, r, p, i);
                            lemma_visits_none(t, r, last, stop);
                            lemma_visits_rebase(t, r, i, i, last);
                            lemma_visits_split(t, r, r, p, stop);
                            lemma_visits_split(t, r, p, i, stop);
                            lemma_visits_split(t, r, i, last, stop);
                            assert(visits_in(t, r, p, stop) =~= visits(t, i));
                            assert(out@ =~= before + visits_in(t, r, r, stop));
                        }
                    },
                    None => {
                        proof {
                            assert forall|n: int| p <= n < stop implies !visited(t, r, n) by {
                                if n > p {
                                    assert(encloses(t, p, n));
                                    assert(!admits(t, p, n));
                                }
                            }
                            lemma_visits_none(t, r, p, stop);
                            lemma_visits_split(t, r, r, p, stop);
                            assert(out@ =~= before + visits_in(t, r, r, stop));
                        }
                    },
                }
            },
            SyntaxKind::Node(k) => {
                if k.item() {
                    proof {
                        assert forall|n: int| p <= n < stop implies !visited(t, r, n) by {
                            if n > p {
                                assert(encloses(t, p, n));
                                assert(!admits(t, p, n));
                            }
                        }
                        lemma_visits_none(t, r, p, stop);
                        lemma_visits_split(t, r, r, p, stop);
                        assert(out@ =~= before + visits_in(t, r, r, stop));
                    }
                } else {
                    if k.expr() {
                        proof {
                            assert forall|a: int|
                                r <= a && #[trigger] encloses(t, a, p) implies admits(t, a, p) by {
                                assert(descends(t, a));
                            }
                            assert(visited(t, r, p));
                        }
                        out.push(pos);
                    }
                    proof {
                        assert(out@ =~= before + visits_in(t, r, r, p + 1));
                    }
                    if tree.is_boundary(pos) {
                        proof {
                            assert forall|n: int| p + 1 <= n < stop implies !visited(t, r, n) by {
                                assert(encloses(t, p, n));
                                assert(!admits(t, p, n));
                            }
                            lemma_visits_none(t, r, p + 1, stop);
                            assert(out@ =~= before + visits_in(t, r, r, stop));
                        }
                    } else {
                        enter = true;
                    }
                }
            },
            SyntaxKind::Token(_) => {
                proof {
                    assert(stop == p + 1);
                    assert(out@ =~= before + visits_in(t, r, r, stop));
                }
            },
        }
        if enter {
            proof {
                assert(descends(t, p));
                assert forall|a: int| r <= a && #[trigger] encloses(t, a, p + 1) implies descends(
                    t,
                    a,
                ) by {
                    if a < p {
                        assert(encloses(t, a, p));
                    }
                }
            }
            pos = pos + 1;
        } else {
            proof {
                assert forall|a: int| r <= a && #[trigger] encloses(t, a, stop) implies descends(
                    t,
                    a,
                ) by {
                    if a < p {
                        assert(encloses(t, a, p));
                    } else if a > p {
                        assert(encloses(t, p, a));
                    }
                }
            }
            pos = e.end;
        }
    }
}

} // verus!
