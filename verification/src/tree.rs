//! The syntax tree that the analysis reads: nodes and tokens in document
//! order, each with its kind, its range and where its subtree ends.

use crate::kind::{Effect, NodeKind, SyntaxKind, TokenKind};
use crate::text::TextRange;
use vstd::prelude::*;

verus! {

/// One node or token. The elements of a tree stand in preorder, so the
/// subtree of the element at `i` is the elements from `i` up to `end`.
#[derive(Clone, Copy, Debug)]
pub struct Element {
    pub kind: SyntaxKind,
    pub range: TextRange,
    /// The node that holds this element; absent at the root.
    pub parent: Option<usize>,
    /// One past the last element of the subtree.
    pub end: usize,
    /// Type inference gave this expression the never type: control does not
    /// come back from it.
    pub never: bool,
}

/// `a` is a proper ancestor of `n`.
pub open spec fn encloses(t: Seq<Element>, a: int, n: int) -> bool {
    0 <= a < n < t.len() && n < t[a].end
}

/// `n` is `root` or one of its descendants.
pub open spec fn in_subtree(t: Seq<Element>, root: int, n: int) -> bool {
    0 <= root <= n < t.len() && n < t[root].end
}

/// The parent of `i` is the nearest element that encloses it.
pub open spec fn parent_link(t: Seq<Element>, i: int) -> bool {
    match t[i].parent {
        Some(p) => encloses(t, p as int, i) && forall|k: int|
            p < k < i ==> !#[trigger] encloses(t, k, i),
        None => false,
    }
}

/// The elements form one tree in preorder: subtrees nest, tokens are leaves,
/// every element but the root has its parent, and the range of an element
/// lies within the range of each of its ancestors.
pub open spec fn well_formed(t: Seq<Element>) -> bool {
    &&& 0 < t.len() <= usize::MAX
    &&& t[0].end == t.len()
    &&& t[0].parent is None
    &&& forall|i: int| 0 <= i < t.len() ==> i < (#[trigger] t[i]).end <= t.len()
    &&& forall|i: int|
        0 <= i < t.len() && (#[trigger] t[i]).kind is Token ==> t[i].end == i + 1
    &&& forall|a: int, n: int| #[trigger] encloses(t, a, n) ==> t[n].end <= t[a].end
    &&& forall|i: int| 0 < i < t.len() ==> #[trigger] parent_link(t, i)
    &&& forall|i: int| 0 <= i < t.len() ==> (#[trigger] t[i]).range.start <= t[i].range.end
    &&& forall|a: int, n: int| #[trigger]
        encloses(t, a, n) ==> t[a].range.start <= t[n].range.start && t[n].range.end
            <= t[a].range.end
}

/// The length of the text that the tree covers.
pub open spec fn text_len(t: Seq<Element>) -> u32 {
    t[0].range.end
}

/// What to look for among the children of a node.
#[derive(Clone, Copy, Debug)]
pub enum Child {
    Node(NodeKind),
    Token(TokenKind),
    /// A node of any expression kind.
    Expr,
    /// A node of any pattern kind.
    Pat,
}

impl Child {
    pub open spec fn admits(self, kind: SyntaxKind) -> bool {
        match self {
            Child::Node(k) => kind == SyntaxKind::Node(k),
            Child::Token(k) => kind == SyntaxKind::Token(k),
            Child::Expr => kind.is_expr(),
            Child::Pat => match kind {
                SyntaxKind::Node(k) => k.is_pat(),
                SyntaxKind::Token(_) => false,
            },
        }
    }

    pub fn test(self, kind: SyntaxKind) -> (r: bool)
        ensures
            r == self.admits(kind),
    {
        match self {
            Child::Node(k) => match kind {
                SyntaxKind::Node(n) => n == k,
                SyntaxKind::Token(_) => false,
            },
            Child::Token(k) => match kind {
                SyntaxKind::Node(_) => false,
                SyntaxKind::Token(n) => n == k,
            },
            Child::Expr => kind.expr(),
            Child::Pat => match kind {
                SyntaxKind::Node(k) => k.pat(),
                SyntaxKind::Token(_) => false,
            },
        }
    }
}

/// The first of the siblings from `from` up to `end` that `want` admits.
pub open spec fn scan(t: Seq<Element>, from: int, end: int, want: Child) -> Option<usize>
    decreases end - from,
{
    if 0 <= from < end && from < t.len() {
        if want.admits(t[from].kind) {
            Some(from as usize)
        } else if from < t[from].end <= end {
            scan(t, t[from].end as int, end, want)
        } else {
            None
        }
    } else {
        None
    }
}

/// The first child of `node` that `want` admits.
pub open spec fn first_child(t: Seq<Element>, node: int, want: Child) -> Option<usize> {
    if 0 <= node < t.len() {
        scan(t, node + 1, t[node].end as int, want)
    } else {
        None
    }
}

/// The qualifier of an effect block, by the first of its tokens in the order
/// `async`, `unsafe`, `try`, `const`.
pub open spec fn effect_of(t: Seq<Element>, node: int) -> Effect {
    if first_child(t, node, Child::Token(TokenKind::AsyncKw)) is Some {
        Effect::Async
    } else if first_child(t, node, Child::Token(TokenKind::UnsafeKw)) is Some {
        Effect::Unsafe
    } else if first_child(t, node, Child::Token(TokenKind::TryKw)) is Some {
        Effect::Try
    } else if first_child(t, node, Child::Token(TokenKind::ConstKw)) is Some {
        Effect::Const
    } else {
        Effect::Plain
    }
}

/// What `scan` finds is a child of `node` that `want` admits, and no child
/// before it, from `from` on, is admitted.
pub proof fn lemma_scan(t: Seq<Element>, node: int, from: int, want: Child)
    requires
        well_formed(t),
        0 <= node < from <= t[node].end,
        node < t.len(),
        from < t[node].end ==> encloses(t, node, from),
        forall|k: int| node < k < from ==> !#[trigger] encloses(t, k, from),
    ensures
        match scan(t, from, t[node].end as int, want) {
            Some(c) => {
                &&& from <= c
                &&& encloses(t, node, c as int)
                &&& want.admits(t[c as int].kind)
                &&& forall|k: int| node < k < c ==> !#[trigger] encloses(t, k, c as int)
            },
            None => true,
        },
    decreases t[node].end - from,
{
    let end = t[node].end as int;
    if from < end && !want.admits(t[from].kind) {
        let next = t[from].end as int;
        assert(encloses(t, node, from));
        assert(next <= end);
        assert forall|k: int| node < k < next implies !#[trigger] encloses(t, k, next) by {
            if k < from {
                assert(!encloses(t, k, from));
            } else if k > from {
                if encloses(t, k, next) {
                    assert(encloses(t, from, k));
                }
            }
        }
        lemma_scan(t, node, next, want);
    }
}

/// What `first_child` finds is a child of `node` that `want` admits.
pub proof fn lemma_first_child(t: Seq<Element>, node: int, want: Child)
    requires
        well_formed(t),
        0 <= node < t.len(),
    ensures
        match first_child(t, node, want) {
            Some(c) => {
                &&& encloses(t, node, c as int)
                &&& want.admits(t[c as int].kind)
                &&& forall|k: int| node < k < c ==> !#[trigger] encloses(t, k, c as int)
            },
            None => true,
        },
{
    lemma_scan(t, node, node + 1, want);
}

/// A syntax tree. It is made by a `TreeBuilder` and always well formed.
pub struct SyntaxTree {
    elements: Vec<Element>,
}

impl View for SyntaxTree {
    type V = Seq<Element>;

    closed spec fn view(&self) -> Seq<Element> {
        self.elements@
    }
}

impl SyntaxTree {
    /// Every tree is well formed.
    #[verifier::type_invariant]
    pub open spec fn inv(self) -> bool {
        well_formed(self@)
    }

    pub(crate) fn from_elements(elements: Vec<Element>) -> (tree: SyntaxTree)
        requires
            well_formed(elements@),
        ensures
            tree@ == elements@,
    {
        SyntaxTree { elements }
    }

    /// The number of nodes and tokens.
    pub fn len(&self) -> (n: usize)
        ensures
            n == self@.len(),
            well_formed(self@),
    {
        proof {
            use_type_invariant(self);
        }
        self.elements.len()
    }

    /// The element at `i`, if there is one.
    pub fn get(&self, i: usize) -> (e: Option<Element>)
        ensures
            e == (if i < self@.len() {
                Some(self@[i as int])
            } else {
                None
            }),
    {
        if i < self.elements.len() {
            Some(self.elements[i])
        } else {
            None
        }
    }

    pub(crate) fn at(&self, i: usize) -> (e: Element)
        requires
            i < self@.len(),
        ensures
            e == self@[i as int],
            well_formed(self@),
    {
        proof {
            use_type_invariant(self);
        }
        self.elements[i]
    }

    /// The length of the text that the tree covers.
    pub fn text_len(&self) -> (n: u32)
        ensures
            n == text_len(self@),
    {
        proof {
            use_type_invariant(self);
        }
        self.elements[0].range.end
    }

    /// The first child of `node` that `want` admits.
    pub fn first_child(&self, node: usize, want: Child) -> (r: Option<usize>)
        ensures
            r == first_child(self@, node as int, want),
            r is Some ==> r->Some_0 < self@.len(),
    {
        if node >= self.len() {
            return None;
        }
        let end: usize = self.at(node).end;
        let mut c: usize = node + 1;
        while c < end
            invariant
                well_formed(self@),
                node < self@.len(),
                end == self@[node as int].end,
                node < c,
                first_child(self@, node as int, want) == scan(self@, c as int, end as int, want),
            decreases end - c,
        {
            let e = self.at(c);
            if want.test(e.kind) {
                return Some(c);
            }
            assert(encloses(self@, node as int, c as int));
            c = e.end;
        }
        None
    }

    /// The qualifier of the effect block `node`.
    pub fn effect(&self, node: usize) -> (r: Effect)
        ensures
            r == effect_of(self@, node as int),
    {
        if self.first_child(node, Child::Token(TokenKind::AsyncKw)).is_some() {
            Effect::Async
        } else if self.first_child(node, Child::Token(TokenKind::UnsafeKw)).is_some() {
            Effect::Unsafe
        } else if self.first_child(node, Child::Token(TokenKind::TryKw)).is_some() {
            Effect::Try
        } else if self.first_child(node, Child::Token(TokenKind::ConstKw)).is_some() {
            Effect::Const
        } else {
            Effect::Plain
        }
    }
}

} // verus!
