//! What a single expression contributes to the exit points or to the yield
//! points of its scope.

use crate::kind::{NodeKind, SyntaxKind, TokenKind};
use crate::text::{HighlightedRange, TextRange};
use crate::tree::{
    encloses, first_child, in_subtree, lemma_first_child, text_len, well_formed, Child,
    Element, SyntaxTree,
};
use crate::walk::{
    is_boundary, lemma_item_isolation, lemma_scope_containment, lemma_visits, visited, visits,
};
use vstd::prelude::*;

verus! {

/// The two kinds of landmark that a scope is searched for.
#[derive(Clone, Copy, Debug, PartialEq, Eq, Structural)]
pub enum Landmark {
    /// Where control leaves the scope.
    Exit,
    /// Where the scope suspends.
    Yield,
}

/// The range of the first token of kind `kind` directly under `n`.
pub open spec fn token_range(t: Seq<Element>, n: int, kind: TokenKind) -> Option<TextRange> {
    match first_child(t, n, Child::Token(kind)) {
        Some(c) => Some(t[c as int].range),
        None => None,
    }
}

/// The range that the expression `n` gives as an exit point: the keyword of a
/// `return`, the `?` of a propagation, and the whole of a call, method call
/// or macro invocation whose type is the never type.
pub open spec fn exit_point(t: Seq<Element>, n: int) -> Option<TextRange> {
    match t[n].kind {
        SyntaxKind::Node(NodeKind::ReturnExpr) => token_range(t, n, TokenKind::ReturnKw),
        SyntaxKind::Node(NodeKind::TryExpr) => token_range(t, n, TokenKind::Question),
        SyntaxKind::Node(k) => if k.is_call_like() && t[n].never {
            Some(t[n].range)
        } else {
            None
        },
        SyntaxKind::Token(_) => None,
    }
}

/// The range that the expression `n` gives as a yield point: the `await` of
/// an await expression.
pub open spec fn yield_point(t: Seq<Element>, n: int) -> Option<TextRange> {
    match t[n].kind {
        SyntaxKind::Node(NodeKind::AwaitExpr) => token_range(t, n, TokenKind::AwaitKw),
        _ => None,
    }
}

pub open spec fn landmark_at(t: Seq<Element>, which: Landmark, n: int) -> Option<TextRange> {
    match which {
        Landmark::Exit => exit_point(t, n),
        Landmark::Yield => yield_point(t, n),
    }
}

/// The landmarks that the expressions `nodes` give, in their order.
pub open spec fn landmarks(t: Seq<Element>, which: Landmark, nodes: Seq<usize>) -> Seq<
    HighlightedRange,
>
    decreases nodes.len(),
{
    if nodes.len() == 0 {
        Seq::empty()
    } else {
        let rest = landmarks(t, which, nodes.drop_last());
        match landmark_at(t, which, nodes.last() as int) {
            Some(range) => rest.push(HighlightedRange::plain(range)),
            None => rest,
        }
    }
}

/// The range of every element lies within the text.
pub proof fn lemma_range_within(t: Seq<Element>, n: int)
    requires
        well_formed(t),
        0 <= n < t.len(),
    ensures
        t[n].range.within(text_len(t)),
{
    if n > 0 {
        assert(encloses(t, 0, n));
    }
}

/// A landmark is the range of an element of the tree: it lies within the
/// text.
pub proof fn lemma_landmark_within(t: Seq<Element>, which: Landmark, n: int)
    requires
        well_formed(t),
        0 <= n < t.len(),
    ensures
        landmark_at(t, which, n) is Some ==> landmark_at(t, which, n)->Some_0.within(text_len(t)),
{
    lemma_first_child(t, n, Child::Token(TokenKind::ReturnKw));
    lemma_first_child(t, n, Child::Token(TokenKind::Question));
    lemma_first_child(t, n, Child::Token(TokenKind::AwaitKw));
    lemma_range_within(t, n);
    match landmark_at(t, which, n) {
        Some(_) => {
            match t[n].kind {
                SyntaxKind::Node(NodeKind::ReturnExpr) => {
                    lemma_range_within(
                        t,
                        first_child(t, n, Child::Token(TokenKind::ReturnKw))->Some_0 as int,
                    );
                },
                SyntaxKind::Node(NodeKind::TryExpr) => {
                    lemma_range_within(
                        t,
                        first_child(t, n, Child::Token(TokenKind::Question))->Some_0 as int,
                    );
                },
                SyntaxKind::Node(NodeKind::AwaitExpr) => {
                    lemma_range_within(
                        t,
                        first_child(t, n, Child::Token(TokenKind::AwaitKw))->Some_0 as int,
                    );
                },
                _ => {},
            }
        },
        None => {},
    }
}

/// Every landmark of `nodes` comes from one of them, and every one of them
/// that gives a landmark has it among the landmarks.
pub proof fn lemma_landmarks(t: Seq<Element>, which: Landmark, nodes: Seq<usize>)
    ensures
        forall|i: int|
            0 <= i < landmarks(t, which, nodes).len() ==> exists|j: int|
                0 <= j < nodes.len() && landmark_at(t, which, nodes[j] as int) == Some(
                    (#[trigger] landmarks(t, which, nodes)[i]).range,
                ) && landmarks(t, which, nodes)[i].access is None,
        forall|j: int|
            0 <= j < nodes.len() && landmark_at(t, which, #[trigger] nodes[j] as int) is Some
                ==> landmarks(t, which, nodes).contains(
                HighlightedRange::plain(landmark_at(t, which, nodes[j] as int)->Some_0),
            ),
    decreases nodes.len(),
{
    if nodes.len() > 0 {
        let front = nodes.drop_last();
        lemma_landmarks(t, which, front);
        let rest = landmarks(t, which, front);
        let all = landmarks(t, which, nodes);
        let last = nodes.len() - 1;
        assert forall|i: int| 0 <= i < all.len() implies exists|j: int|
            0 <= j < nodes.len() && landmark_at(t, which, nodes[j] as int) == Some(
                (#[trigger] all[i]).range,
            ) && all[i].access is None by {
            if i < rest.len() {
                assert(all[i] == rest[i]);
                let j = choose|j: int|
                    0 <= j < front.len() && landmark_at(t, which, front[j] as int) == Some(
                        rest[i].range,
                    ) && rest[i].access is None;
                assert(nodes[j] == front[j]);
            } else {
                assert(landmark_at(t, which, nodes[last] as int) == Some(all[i].range));
            }
        }
        assert forall|j: int|
            0 <= j < nodes.len() && landmark_at(
                t,
                which,
                #[trigger] nodes[j] as int,
            ) is Some implies all.contains(
            HighlightedRange::plain(landmark_at(t, which, nodes[j] as int)->Some_0),
        ) by {
            let h = HighlightedRange::plain(landmark_at(t, which, nodes[j] as int)->Some_0);
            if j < last {
                assert(front[j] == nodes[j]);
                assert(rest.contains(h));
                let i = choose|i: int| 0 <= i < rest.len() && rest[i] == h;
                assert(all[i] == h);
            } else {
                assert(all[all.len() - 1] == h);
            }
        }
    }
}

/// Scope containment: every landmark found by walking `body` comes from an
/// expression that the walk reports, and none of these lies inside a closure
/// or an `async`, `try` or `const` block that stands in `body`.
pub proof fn lemma_landmarks_stay_in_scope(
    t: Seq<Element>,
    which: Landmark,
    body: int,
    boundary: int,
    i: int,
)
    requires
        well_formed(t),
        in_subtree(t, body, boundary),
        is_boundary(t, boundary),
        0 <= i < landmarks(t, which, visits(t, body)).len(),
    ensures
        exists|n: int|
            #![trigger visited(t, body, n)]
            visited(t, body, n) && !encloses(t, boundary, n) && landmark_at(t, which, n) == Some(
                landmarks(t, which, visits(t, body))[i].range,
            ),
{
    let nodes = visits(t, body);
    lemma_landmarks(t, which, nodes);
    let j = choose|j: int|
        0 <= j < nodes.len() && landmark_at(t, which, nodes[j] as int) == Some(
            landmarks(t, which, nodes)[i].range,
        );
    let n = nodes[j] as int;
    assert(nodes.contains(n as usize));
    lemma_visits(t, body, n);
    if encloses(t, boundary, n) {
        lemma_scope_containment(t, body, boundary, n);
    }
    assert(visited(t, body, n));
}

/// Item isolation: every landmark found by walking `body` comes from an
/// expression that the walk reports, and none of these is, or lies inside, an
/// item that stands in `body`.
pub proof fn lemma_landmarks_leave_items_out(
    t: Seq<Element>,
    which: Landmark,
    body: int,
    item: int,
    i: int,
)
    requires
        well_formed(t),
        in_subtree(t, body, item),
        t[item].kind is Node,
        t[item].kind->Node_0.is_item(),
        0 <= i < landmarks(t, which, visits(t, body)).len(),
    ensures
        exists|n: int|
            #![trigger visited(t, body, n)]
            visited(t, body, n) && !in_subtree(t, item, n) && landmark_at(t, which, n) == Some(
                landmarks(t, which, visits(t, body))[i].range,
            ),
{
    let nodes = visits(t, body);
    lemma_landmarks(t, which, nodes);
    let j = choose|j: int|
        0 <= j < nodes.len() && landmark_at(t, which, nodes[j] as int) == Some(
            landmarks(t, which, nodes)[i].range,
        );
    let n = nodes[j] as int;
    assert(nodes.contains(n as usize));
    lemma_visits(t, body, n);
    if in_subtree(t, item, n) {
        lemma_item_isolation(t, body, item, n);
    }
    assert(visited(t, body, n));
}

/// Every landmark found by walking `body` lies within the text.
pub proof fn lemma_landmarks_within(t: Seq<Element>, which: Landmark, body: int, i: int)
    requires
        well_formed(t),
        0 <= i < landmarks(t, which, visits(t, body)).len(),
    ensures
        landmarks(t, which, visits(t, body))[i].range.within(text_len(t)),
{
    let nodes = visits(t, body);
    lemma_landmarks(t, which, nodes);
    let j = choose|j: int|
        0 <= j < nodes.len() && landmark_at(t, which, nodes[j] as int) == Some(
            landmarks(t, which, nodes)[i].range,
        );
    let n = nodes[j] as int;
    assert(nodes.contains(n as usize));
    lemma_visits(t, body, n);
    lemma_landmark_within(t, which, n);
}

/// Appends to `out` the landmarks that the expressions `nodes` give.
pub(crate) fn collect_landmarks(
    tree: &SyntaxTree,
    which: Landmark,
    nodes: &Vec<usize>,
    out: &mut Vec<HighlightedRange>,
)
    requires
        forall|j: int| 0 <= j < nodes@.len() ==> nodes@[j] < tree@.len(),
    ensures
        final(out)@ == old(out)@ + landmarks(tree@, which, nodes@),
{
    let ghost before = out@;
    let mut k: usize = 0;
    assert(out@ =~= before + landmarks(tree@, which, nodes@.take(0)));
    while k < nodes.len()
        invariant
            k <= nodes@.len(),
            forall|j: int| 0 <= j < nodes@.len() ==> nodes@[j] < tree@.len(),
            out@ == before + landmarks(tree@, which, nodes@.take(k as int)),
        decreases nodes@.len() - k,
    {
        let n: usize = nodes[k];
        proof {
            let next = nodes@.take(k + 1);
            assert(next.drop_last() =~= nodes@.take(k as int));
            assert(next.last() == n);
        }
        match tree.landmark_at(which, n) {
            Some(range) => {
                out.push(HighlightedRange::landmark(range));
                assert(out@ =~= before + landmarks(tree@, which, nodes@.take(k + 1)));
            },
            None => {},
        }
        k = k + 1;
    }
    assert(nodes@.take(k as int) =~= nodes@);
}

impl SyntaxTree {
    /// The range of the first token of kind `kind` directly under `node`.
    pub fn token_range(&self, node: usize, kind: TokenKind) -> (r: Option<TextRange>)
        ensures
            r == token_range(self@, node as int, kind),
    {
        match self.first_child(node, Child::Token(kind)) {
            Some(c) => Some(self.at(c).range),
            None => None,
        }
    }

    /// The landmark that the expression `node` gives, if it gives one.
    pub(crate) fn landmark_at(&self, which: Landmark, node: usize) -> (r: Option<TextRange>)
        requires
            node < self@.len(),
        ensures
            r == landmark_at(self@, which, node as int),
    {
        let e = self.at(node);
        match which {
            Landmark::Exit => match e.kind {
                SyntaxKind::Node(NodeKind::ReturnExpr) => self.token_range(
                    node,
                    TokenKind::ReturnKw,
                ),
                SyntaxKind::Node(NodeKind::TryExpr) => self.token_range(node, TokenKind::Question),
                SyntaxKind::Node(k) => if k.call_like() && e.never {
                    Some(e.range)
                } else {
                    None
                },
                SyntaxKind::Token(_) => None,
            },
            Landmark::Yield => match e.kind {
                SyntaxKind::Node(NodeKind::AwaitExpr) => self.token_range(node, TokenKind::AwaitKw),
                _ => None,
            },
        }
    }
}

} // verus!
