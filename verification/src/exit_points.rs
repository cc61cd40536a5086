//! Exit points: where control leaves a function, a closure or an `async`,
//! `try` or `const` block.

use crate::kind::{NodeKind, SyntaxKind, TokenKind};
use crate::points::{
    collect_landmarks, exit_point, landmark_at, landmarks, lemma_landmarks,
    lemma_landmarks_within, lemma_range_within, token_range, Landmark,
};
use crate::scope::{body_of, enclosing_domain, resolve_domain, EffectSet};
use crate::text::{shown, HighlightedRange};
use crate::tree::{
    encloses, first_child, in_subtree, lemma_first_child, text_len, well_formed, Child,
    Element, SyntaxTree,
};
use crate::walk::{
    in_scope, is_boundary, lemma_visited, lemma_visits, visited, visits, walk,
};
use vstd::prelude::*;

verus! {

/// The expression whose value is the value of `body`: the trailing
/// expression of a block, which is its one child expression that no statement
/// wraps, and any other body itself.
pub open spec fn tail_of(t: Seq<Element>, body: int) -> Option<usize> {
    if 0 <= body < t.len() {
        if t[body].kind == SyntaxKind::Node(NodeKind::BlockExpr) {
            first_child(t, body, Child::Expr)
        } else {
            Some(body as usize)
        }
    } else {
        None
    }
}

/// The exit points of the scope with the body `body`: those that the walk
/// finds, in document order, and then the tail, where control leaves with the
/// value of the body.
pub open spec fn exit_points(t: Seq<Element>, body: int) -> Seq<HighlightedRange> {
    let found = landmarks(t, Landmark::Exit, visits(t, body));
    match tail_of(t, body) {
        Some(tail) => found.push(HighlightedRange::plain(t[tail as int].range)),
        None => found,
    }
}

/// The exit points of the scope around `anchor`. They are absent where no
/// function, closure or `async`, `try` or `const` block stands around it, and
/// where the nearest of these has no body.
pub open spec fn exit_highlights(t: Seq<Element>, anchor: int) -> Option<Seq<HighlightedRange>> {
    match enclosing_domain(t, anchor, EffectSet::exits()) {
        Some(d) => match body_of(t, d as int) {
            Some(body) => Some(exit_points(t, body as int)),
            None => None,
        },
        None => None,
    }
}

/// Divergent-call inclusion: a call, method call or macro invocation of the
/// never type is among the exit points of its scope, with its whole range,
/// wherever in the body it stands: in a statement, in the initializer of a
/// `let`, among the arguments of another call, in the arm of a `match`. Only
/// what lies in an item, in a closure, in an `async`, `try` or `const` block
/// or in another part of a `let` than its initializer is not of the scope.
pub proof fn lemma_divergent_call_is_exit_point(t: Seq<Element>, body: int, call: int)
    requires
        well_formed(t),
        in_scope(t, body, call),
        t[call].kind is Node,
        t[call].kind->Node_0.is_call_like(),
        t[call].never,
    ensures
        exit_points(t, body).contains(HighlightedRange::plain(t[call].range)),
{
    lemma_visited(t, body, call);
    lemma_exit_point_found(t, body, call);
}

/// Every `return`, every `?` and every call of the never type that the walk
/// of `body` reports gives its exit point.
pub proof fn lemma_exit_point_found(t: Seq<Element>, body: int, n: int)
    requires
        well_formed(t),
        visited(t, body, n),
        exit_point(t, n) is Some,
    ensures
        exit_points(t, body).contains(HighlightedRange::plain(exit_point(t, n)->Some_0)),
{
    let nodes = visits(t, body);
    let found = landmarks(t, Landmark::Exit, nodes);
    let h = HighlightedRange::plain(exit_point(t, n)->Some_0);
    lemma_visits(t, body, n);
    let j = choose|j: int| 0 <= j < nodes.len() && nodes[j] == n as usize;
    lemma_landmarks(t, Landmark::Exit, nodes);
    assert(landmark_at(t, Landmark::Exit, nodes[j] as int) is Some);
    assert(found.contains(h));
    let i = choose|i: int| 0 <= i < found.len() && found[i] == h;
    assert(exit_points(t, body)[i] == h);
}

/// Every `return` and every `?` of the scope is an exit point, with the
/// range of its keyword or operator, wherever in the body it stands.
pub proof fn lemma_return_and_try_are_exit_points(t: Seq<Element>, body: int, n: int)
    requires
        well_formed(t),
        in_scope(t, body, n),
        (t[n].kind == SyntaxKind::Node(NodeKind::ReturnExpr) && token_range(
            t,
            n,
            TokenKind::ReturnKw,
        ) is Some) || (t[n].kind == SyntaxKind::Node(NodeKind::TryExpr) && token_range(
            t,
            n,
            TokenKind::Question,
        ) is Some),
    ensures
        exit_points(t, body).contains(HighlightedRange::plain(exit_point(t, n)->Some_0)),
        exit_point(t, n) == (if t[n].kind == SyntaxKind::Node(NodeKind::ReturnExpr) {
            token_range(t, n, TokenKind::ReturnKw)
        } else {
            token_range(t, n, TokenKind::Question)
        }),
{
    lemma_visited(t, body, n);
    lemma_exit_point_found(t, body, n);
}

/// The tail of a body stands in no closure and in no `async`, `try` or
/// `const` block inside that body.
pub proof fn lemma_tail_in_scope(t: Seq<Element>, body: int, boundary: int)
    requires
        well_formed(t),
        in_subtree(t, body, boundary),
        is_boundary(t, boundary),
        tail_of(t, body) is Some,
    ensures
        !encloses(t, boundary, tail_of(t, body)->Some_0 as int),
{
    lemma_first_child(t, body, Child::Expr);
}

/// Every exit point lies within the text and carries no access.
pub proof fn lemma_exit_points_within(t: Seq<Element>, body: int, i: int)
    requires
        well_formed(t),
        0 <= i < exit_points(t, body).len(),
    ensures
        exit_points(t, body)[i].range.within(text_len(t)),
        exit_points(t, body)[i].access is None,
{
    let found = landmarks(t, Landmark::Exit, visits(t, body));
    if i < found.len() {
        lemma_landmarks_within(t, Landmark::Exit, body, i);
        lemma_landmarks(t, Landmark::Exit, visits(t, body));
    } else {
        lemma_first_child(t, body, Child::Expr);
        lemma_range_within(t, tail_of(t, body)->Some_0 as int);
    }
}

impl SyntaxTree {
    /// The tail of the body `body`.
    pub fn tail(&self, body: usize) -> (r: Option<usize>)
        ensures
            r == tail_of(self@, body as int),
            r is Some ==> r->Some_0 < self@.len(),
    {
        if body >= self.len() {
            return None;
        }
        match self.at(body).kind {
            SyntaxKind::Node(NodeKind::BlockExpr) => self.first_child(body, Child::Expr),
            _ => Some(body),
        }
    }
}

/// The exit points of the scope with the body `body`.
pub fn exit_points_of(tree: &SyntaxTree, body: usize) -> (r: Vec<HighlightedRange>)
    ensures
        r@ == exit_points(tree@, body as int),
{
    let nodes = walk(tree, body);
    let mut highlights: Vec<HighlightedRange> = Vec::new();
    collect_landmarks(tree, Landmark::Exit, &nodes, &mut highlights);
    assert(highlights@ =~= landmarks(tree@, Landmark::Exit, nodes@));
    match tree.tail(body) {
        Some(tail) => {
            highlights.push(HighlightedRange::landmark(tree.at(tail).range));
        },
        None => {},
    }
    highlights
}

/// The exit points of the scope around `token`: each `return`, each `?`,
/// each call that does not come back, and the tail of the body. The scope is
/// the nearest function, closure or `async`, `try` or `const` block around the
/// token; closures, such blocks and items inside it keep their own.
pub fn highlight_exit_points(tree: &SyntaxTree, token: usize) -> (r: Option<
    Vec<HighlightedRange>,
>)
    ensures
        shown(r) == exit_highlights(tree@, token as int),
        r is Some ==> forall|i: int|
            0 <= i < r->Some_0@.len() ==> (#[trigger] r->Some_0@[i]).access is None
                && r->Some_0@[i].range.within(text_len(tree@)),
{
    let domain = match resolve_domain(tree, token, EffectSet::for_exits()) {
        Some(domain) => domain,
        None => {
            return None;
        },
    };
    match tree.body(domain.node) {
        Some(body) => {
            let highlights = exit_points_of(tree, body);
            proof {
                use_type_invariant(tree);
            }
            assert forall|i: int| 0 <= i < highlights@.len() implies (#[trigger] highlights@[i]).access is None
                && highlights@[i].range.within(text_len(tree@)) by {
                lemma_exit_points_within(tree@, body as int, i);
            }
            Some(highlights)
        },
        None => None,
    }
}

} // verus!
