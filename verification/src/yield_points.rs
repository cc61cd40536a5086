//! Yield points: where an `async` function, closure or block suspends.

use crate::kind::{NodeKind, SyntaxKind, TokenKind};
use crate::points::{
    collect_landmarks, landmark_at, landmarks, lemma_landmarks, lemma_landmarks_within,
    lemma_range_within, token_range, Landmark,
};
use crate::scope::{body_of, enclosing_domain, resolve_domain, EffectSet};
use crate::text::{shown, HighlightedRange};
use crate::tree::{
    first_child, lemma_first_child, text_len, well_formed, Child, Element, SyntaxTree,
};
use crate::walk::{in_scope, lemma_visited, lemma_visits, visits, walk};
use vstd::prelude::*;

verus! {

/// The yield points of the scope that the node `d` makes: first its own
/// `async` keyword, then each `await` that the walk of its body finds, in
/// document order. Without the keyword the scope does not suspend, and
/// without a body there is nothing to walk: either way the result is absent.
pub open spec fn yield_points(t: Seq<Element>, d: int) -> Option<Seq<HighlightedRange>> {
    match token_range(t, d, TokenKind::AsyncKw) {
        Some(keyword) => {
            let first = seq![HighlightedRange::plain(keyword)];
            match body_of(t, d) {
                Some(body) => Some(first + landmarks(t, Landmark::Yield, visits(t, body as int))),
                None => None,
            }
        },
        None => None,
    }
}

/// The yield points of the scope around `anchor`: the nearest function,
/// closure or `async` block. Blocks with another qualifier are looked
/// through.
pub open spec fn yield_highlights(t: Seq<Element>, anchor: int) -> Option<Seq<HighlightedRange>> {
    match enclosing_domain(t, anchor, EffectSet::suspensions()) {
        Some(d) => yield_points(t, d as int),
        None => None,
    }
}

/// Every `await` of the scope is a yield point, with the range of its
/// keyword, wherever in the body it stands: only what lies in an item, in a
/// closure, in an `async`, `try` or `const` block or in another part of a
/// `let` than its initializer is not of the scope.
pub proof fn lemma_await_is_yield_point(t: Seq<Element>, d: int, n: int)
    requires
        well_formed(t),
        yield_points(t, d) is Some,
        in_scope(t, body_of(t, d)->Some_0 as int, n),
        t[n].kind == SyntaxKind::Node(NodeKind::AwaitExpr),
        token_range(t, n, TokenKind::AwaitKw) is Some,
    ensures
        yield_points(t, d)->Some_0.contains(
            HighlightedRange::plain(token_range(t, n, TokenKind::AwaitKw)->Some_0),
        ),
{
    let body = body_of(t, d)->Some_0 as int;
    let nodes = visits(t, body);
    let found = landmarks(t, Landmark::Yield, nodes);
    let h = HighlightedRange::plain(token_range(t, n, TokenKind::AwaitKw)->Some_0);
    lemma_visited(t, body, n);
    lemma_visits(t, body, n);
    let j = choose|j: int| 0 <= j < nodes.len() && nodes[j] == n as usize;
    lemma_landmarks(t, Landmark::Yield, nodes);
    assert(landmark_at(t, Landmark::Yield, nodes[j] as int) is Some);
    assert(found.contains(h));
    let i = choose|i: int| 0 <= i < found.len() && found[i] == h;
    assert(yield_points(t, d)->Some_0[i + 1] == h);
}

/// Every yield point lies within the text and carries no access.
pub proof fn lemma_yield_points_within(t: Seq<Element>, d: int, i: int)
    requires
        well_formed(t),
        yield_points(t, d) is Some,
        0 <= i < yield_points(t, d)->Some_0.len(),
    ensures
        yield_points(t, d)->Some_0[i].range.within(text_len(t)),
        yield_points(t, d)->Some_0[i].access is None,
{
    if i == 0 {
        lemma_first_child(t, d, Child::Token(TokenKind::AsyncKw));
        lemma_range_within(
            t,
            first_child(t, d, Child::Token(TokenKind::AsyncKw))->Some_0 as int,
        );
    } else {
        let body = body_of(t, d)->Some_0 as int;
        lemma_landmarks_within(t, Landmark::Yield, body, i - 1);
        lemma_landmarks(t, Landmark::Yield, visits(t, body));
    }
}

/// The yield points of the scope that the node `domain` makes.
pub fn yield_points_of(tree: &SyntaxTree, domain: usize) -> (r: Option<Vec<HighlightedRange>>)
    ensures
        shown(r) == yield_points(tree@, domain as int),
{
    let keyword = match tree.token_range(domain, TokenKind::AsyncKw) {
        Some(range) => range,
        None => {
            return None;
        },
    };
    let body = match tree.body(domain) {
        Some(body) => body,
        None => {
            return None;
        },
    };
    let mut highlights: Vec<HighlightedRange> = Vec::new();
    highlights.push(HighlightedRange::landmark(keyword));
    let nodes = walk(tree, body);
    collect_landmarks(tree, Landmark::Yield, &nodes, &mut highlights);
    assert(shown(Some(highlights)) =~= yield_points(tree@, domain as int)) by {
        assert(highlights@ =~= yield_points(tree@, domain as int)->Some_0);
    }
    Some(highlights)
}

/// The yield points of the scope around `token`: the `async` keyword of the
/// nearest function, closure or `async` block, and each `await` in its body.
/// Closures and `async`, `try` and `const` blocks inside it keep their own.
/// Absent where there is no such scope, where it has no `async` keyword, and
/// where it has no body.
pub fn highlight_yield_points(tree: &SyntaxTree, token: usize) -> (r: Option<
    Vec<HighlightedRange>,
>)
    ensures
        shown(r) == yield_highlights(tree@, token as int),
        r is Some ==> forall|i: int|
            0 <= i < r->Some_0@.len() ==> (#[trigger] r->Some_0@[i]).access is None
                && r->Some_0@[i].range.within(text_len(tree@)),
{
    match resolve_domain(tree, token, EffectSet::for_suspensions()) {
        Some(domain) => {
            let r = yield_points_of(tree, domain.node);
            proof {
                use_type_invariant(tree);
                if r is Some {
                    assert forall|i: int| 0 <= i < r->Some_0@.len() implies (#[trigger] r->Some_0@[
                        i
                    ]).access is None && r->Some_0@[i].range.within(text_len(tree@)) by {
                        lemma_yield_points_within(tree@, domain.node as int, i);
                    }
                }
            }
            r
        },
        None => None,
    }
}

} // verus!
