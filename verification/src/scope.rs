//! Finding the scope that a token belongs to: the nearest function, closure
//! or accepted effect block around it.

use crate::kind::{Effect, NodeKind, SyntaxKind};
use crate::tree::{
    effect_of, encloses, first_child, parent_link, well_formed, Child, Element, SyntaxTree,
};
use vstd::prelude::*;

verus! {

/// The qualifiers with which an effect block counts as a scope for the
/// caller. A block with any other qualifier is looked through.
#[derive(Clone, Copy, Debug)]
pub struct EffectSet {
    pub async_blocks: bool,
    pub try_blocks: bool,
    pub const_blocks: bool,
}

impl EffectSet {
    pub open spec fn holds(self, effect: Effect) -> bool {
        match effect {
            Effect::Async => self.async_blocks,
            Effect::Try => self.try_blocks,
            Effect::Const => self.const_blocks,
            _ => false,
        }
    }

    /// What control can leave: `async`, `try` and `const` blocks.
    pub open spec fn exits() -> EffectSet {
        EffectSet { async_blocks: true, try_blocks: true, const_blocks: true }
    }

    /// What can suspend: `async` blocks alone.
    pub open spec fn suspensions() -> EffectSet {
        EffectSet { async_blocks: true, try_blocks: false, const_blocks: false }
    }

    pub fn for_exits() -> (r: EffectSet)
        ensures
            r == Self::exits(),
    {
        EffectSet { async_blocks: true, try_blocks: true, const_blocks: true }
    }

    pub fn for_suspensions() -> (r: EffectSet)
        ensures
            r == Self::suspensions(),
    {
        EffectSet { async_blocks: true, try_blocks: false, const_blocks: false }
    }

    pub fn contains(&self, effect: Effect) -> (r: bool)
        ensures
            r == self.holds(effect),
    {
        match effect {
            Effect::Async => self.async_blocks,
            Effect::Try => self.try_blocks,
            Effect::Const => self.const_blocks,
            _ => false,
        }
    }
}

#[derive(Clone, Copy, Debug, PartialEq, Eq, Structural)]
pub enum DomainKind {
    Function,
    Closure,
    EffectBlock(Effect),
}

/// A scope found around a token: the node that makes it, and its kind.
#[derive(Clone, Copy, Debug)]
pub struct Domain {
    pub node: usize,
    pub kind: DomainKind,
}

/// The kind of scope that the node `n` makes, if it makes one.
pub open spec fn domain_kind(t: Seq<Element>, n: int) -> Option<DomainKind> {
    match t[n].kind {
        SyntaxKind::Node(NodeKind::Fn) => Some(DomainKind::Function),
        SyntaxKind::Node(NodeKind::ClosureExpr) => Some(DomainKind::Closure),
        SyntaxKind::Node(NodeKind::EffectExpr) => Some(DomainKind::EffectBlock(effect_of(t, n))),
        _ => None,
    }
}

/// The node `n` is a function, a closure, or an effect block with one of the
/// accepted qualifiers.
pub open spec fn is_domain(t: Seq<Element>, n: int, accept: EffectSet) -> bool {
    match domain_kind(t, n) {
        Some(DomainKind::EffectBlock(effect)) => accept.holds(effect),
        Some(_) => true,
        None => false,
    }
}

/// The first scope on the way from `n` to the root, `n` itself left out.
pub open spec fn enclosing_domain(t: Seq<Element>, n: int, accept: EffectSet) -> Option<usize>
    decreases n,
{
    if 0 <= n < t.len() {
        match t[n].parent {
            Some(p) => if p < n {
                if is_domain(t, p as int, accept) {
                    Some(p)
                } else {
                    enclosing_domain(t, p as int, accept)
                }
            } else {
                None
            },
            None => None,
        }
    } else {
        None
    }
}

/// The body of the scope that the node `d` makes: the block of a function or
/// of an effect block, the expression of a closure.
pub open spec fn body_of(t: Seq<Element>, d: int) -> Option<usize> {
    match t[d].kind {
        SyntaxKind::Node(NodeKind::Fn) => first_child(t, d, Child::Node(NodeKind::BlockExpr)),
        SyntaxKind::Node(NodeKind::ClosureExpr) => first_child(t, d, Child::Expr),
        SyntaxKind::Node(NodeKind::EffectExpr) => first_child(
            t,
            d,
            Child::Node(NodeKind::BlockExpr),
        ),
        _ => None,
    }
}

/// The scope found for `n` is the nearest one: it encloses `n`, and no
/// function, closure or accepted effect block stands between the two. Where
/// none is found, nothing around `n` is a scope.
pub proof fn lemma_enclosing_domain(t: Seq<Element>, n: int, accept: EffectSet)
    requires
        well_formed(t),
        0 <= n < t.len(),
    ensures
        match enclosing_domain(t, n, accept) {
            Some(d) => {
                &&& encloses(t, d as int, n)
                &&& is_domain(t, d as int, accept)
                &&& forall|a: int| d < a && #[trigger] encloses(t, a, n) ==> !is_domain(t, a, accept)
            },
            None => forall|a: int| #[trigger] encloses(t, a, n) ==> !is_domain(t, a, accept),
        },
    decreases n,
{
    if n == 0 {
    } else {
        assert(parent_link(t, n));
        let p = t[n].parent->Some_0 as int;
        assert(encloses(t, p, n));
        assert forall|a: int| #[trigger] encloses(t, a, n) && a != p implies encloses(t, a, p) by {
            if a > p {
                assert(!encloses(t, a, n));
            }
        }
        if !is_domain(t, p, accept) {
            lemma_enclosing_domain(t, p, accept);
            match enclosing_domain(t, p, accept) {
                Some(d) => {
                    assert(encloses(t, d as int, p));
                    assert(t[p].end <= t[d as int].end);
                },
                None => {},
            }
        }
    }
}

impl SyntaxTree {
    /// The kind of scope that `node` makes, if it makes one.
    pub fn domain_kind(&self, node: usize) -> (r: Option<DomainKind>)
        ensures
            r == (if node < self@.len() {
                domain_kind(self@, node as int)
            } else {
                None
            }),
    {
        if node >= self.len() {
            return None;
        }
        match self.at(node).kind {
            SyntaxKind::Node(NodeKind::Fn) => Some(DomainKind::Function),
            SyntaxKind::Node(NodeKind::ClosureExpr) => Some(DomainKind::Closure),
            SyntaxKind::Node(NodeKind::EffectExpr) => Some(
                DomainKind::EffectBlock(self.effect(node)),
            ),
            _ => None,
        }
    }

    /// The body of the scope that `node` makes.
    pub fn body(&self, node: usize) -> (r: Option<usize>)
        ensures
            r == (if node < self@.len() {
                body_of(self@, node as int)
            } else {
                None
            }),
            r is Some ==> r->Some_0 < self@.len(),
    {
        if node >= self.len() {
            return None;
        }
        match self.at(node).kind {
            SyntaxKind::Node(NodeKind::Fn) => self.first_child(
                node,
                Child::Node(NodeKind::BlockExpr),
            ),
            SyntaxKind::Node(NodeKind::ClosureExpr) => self.first_child(node, Child::Expr),
            SyntaxKind::Node(NodeKind::EffectExpr) => self.first_child(
                node,
                Child::Node(NodeKind::BlockExpr),
            ),
            _ => None,
        }
    }
}

/// Walks outward from `anchor` and returns the first function, closure or
/// accepted effect block on the way. An effect block with a qualifier that
/// `accept` does not hold is looked through.
pub fn resolve_domain(tree: &SyntaxTree, anchor: usize, accept: EffectSet) -> (r: Option<Domain>)
    ensures
        match r {
            Some(d) => enclosing_domain(tree@, anchor as int, accept) == Some(d.node)
                && d.node < tree@.len() && domain_kind(tree@, d.node as int) == Some(d.kind),
            None => enclosing_domain(tree@, anchor as int, accept) is None,
        },
{
    if anchor >= tree.len() {
        return None;
    }
    let mut cur: usize = anchor;
    loop
        invariant
            well_formed(tree@),
            cur < tree@.len(),
            enclosing_domain(tree@, anchor as int, accept) == enclosing_domain(
                tree@,
                cur as int,
                accept,
            ),
        decreases cur,
    {
        match tree.at(cur).parent {
            None => {
                return None;
            },
            Some(p) => {
                proof {
                    assert(cur > 0);
                    assert(parent_link(tree@, cur as int));
                    assert(encloses(tree@, p as int, cur as int));
                }
                match tree.domain_kind(p) {
                    Some(DomainKind::EffectBlock(effect)) => {
                        if accept.contains(effect) {
                            return Some(Domain { node: p, kind: DomainKind::EffectBlock(effect) });
                        }
                    },
                    Some(kind) => {
                        return Some(Domain { node: p, kind });
                    },
                    None => {},
                }
                cur = p;
            },
        }
    }
}

} // verus!
