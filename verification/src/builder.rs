//! Building a syntax tree from the events of a preorder traversal: a node
//! starts, tokens and further nodes follow, the node is finished.

use crate::kind::{NodeKind, SyntaxKind, TokenKind};
use crate::text::TextRange;
use crate::tree::{encloses, parent_link, well_formed, Element, SyntaxTree};
use vstd::prelude::*;

verus! {

/// Where the subtree of `i` ends as far as it is built: an open node, which
/// has `end` 0, reaches to the end of what is there.
pub open spec fn reach(e: Seq<Element>, i: int) -> int {
    if e[i].end == 0 {
        e.len() as int
    } else {
        e[i].end as int
    }
}

/// Where the range of `i` ends as far as it is built.
pub open spec fn stop(e: Seq<Element>, offset: u32, i: int) -> int {
    if e[i].end == 0 {
        offset as int
    } else {
        e[i].range.end as int
    }
}

/// `a` holds `n` in its subtree as far as it is built.
pub open spec fn holds(e: Seq<Element>, a: int, n: int) -> bool {
    0 <= a < n < e.len() && n < reach(e, a)
}

/// The parent of `i` is the nearest element that holds it.
pub open spec fn linked(e: Seq<Element>, i: int) -> bool {
    match e[i].parent {
        Some(p) => holds(e, p as int, i) && forall|k: int| p < k < i ==> !#[trigger] holds(e, k, i),
        None => false,
    }
}

/// The elements are a tree under construction: `open` lists the nodes that
/// are not finished, from the root down, and all else is as in a finished
/// tree.
pub open spec fn partial(e: Seq<Element>, open: Seq<usize>, offset: u32) -> bool {
    &&& e.len() <= usize::MAX
    &&& forall|k: int|
        0 <= k < open.len() ==> (#[trigger] open[k]) < e.len() && e[open[k] as int].end == 0
            && e[open[k] as int].kind is Node
    &&& forall|j: int, k: int| 0 <= j < k < open.len() ==> open[j] < open[k]
    &&& forall|i: int|
        0 <= i < e.len() && (#[trigger] e[i]).end == 0 ==> exists|k: int|
            0 <= k < open.len() && open[k] == i
    &&& open.len() > 0 ==> open[0] == 0
    &&& e.len() > 0 ==> e[0].parent is None
    &&& e.len() > 0 && open.len() == 0 ==> e[0].end == e.len()
    &&& forall|i: int| 0 <= i < e.len() ==> i < #[trigger] reach(e, i) <= e.len()
    &&& forall|i: int| 0 <= i < e.len() && (#[trigger] e[i]).kind is Token ==> e[i].end == i + 1
    &&& forall|a: int, n: int| #[trigger] holds(e, a, n) ==> reach(e, n) <= reach(e, a)
    &&& forall|a: int, n: int| #[trigger] holds(e, a, n) && e[n].end == 0 ==> e[a].end == 0
    &&& forall|i: int| 0 < i < e.len() ==> #[trigger] linked(e, i)
    &&& forall|i: int|
        0 <= i < e.len() ==> (#[trigger] e[i]).range.start <= stop(e, offset, i) <= offset
    &&& forall|a: int, n: int| #[trigger]
        holds(e, a, n) ==> e[a].range.start <= e[n].range.start && stop(e, offset, n) <= stop(
            e,
            offset,
            a,
        )
}

/// Builds a `SyntaxTree`. The first event starts the root; every later event
/// adds to the innermost node that is not finished. The ranges follow from the
/// lengths of the tokens.
pub struct TreeBuilder {
    elements: Vec<Element>,
    open: Vec<usize>,
    offset: u32,
}

impl TreeBuilder {
    /// The elements so far. A node that is not finished has `end` 0 and an
    /// empty range at its start.
    pub closed spec fn elements(&self) -> Seq<Element> {
        self.elements@
    }

    /// The nodes that are not finished, from the root down.
    pub closed spec fn open(&self) -> Seq<usize> {
        self.open@
    }

    /// The length of the text so far.
    pub closed spec fn offset(&self) -> u32 {
        self.offset
    }

    /// What every builder keeps: its elements are a tree under construction.
    pub closed spec fn wf(&self) -> bool {
        partial(self.elements@, self.open@, self.offset)
    }

    /// The innermost node that is not finished.
    pub open spec fn innermost(&self) -> Option<usize> {
        if self.open().len() > 0 {
            Some(self.open().last())
        } else {
            None
        }
    }

    /// An empty builder.
    pub fn new() -> (b: TreeBuilder)
        ensures
            b.wf(),
            b.elements().len() == 0,
            b.open().len() == 0,
            b.offset() == 0,
    {
        TreeBuilder { elements: Vec::new(), open: Vec::new(), offset: 0 }
    }

    /// Starts a node of kind `kind` under the innermost open node, or as the
    /// root of an empty tree, and tells whether it did. `never` says that
    /// type inference gave the expression the never type. After the root is
    /// finished nothing can be added, nor to a tree of `usize::MAX` elements.
    pub fn start_node(&mut self, kind: NodeKind, never: bool) -> (ok: bool)
        requires
            old(self).wf(),
        ensures
            final(self).wf(),
            ok == ((old(self).elements().len() == 0 || old(self).open().len() > 0) && old(
                self,
            ).elements().len() < usize::MAX),
            ok ==> final(self).elements() == old(self).elements().push(
                Element {
                    kind: SyntaxKind::Node(kind),
                    range: TextRange { start: old(self).offset(), end: old(self).offset() },
                    parent: old(self).innermost(),
                    end: 0,
                    never,
                },
            ) && final(self).open() == old(self).open().push(old(self).elements().len() as usize),
            !ok ==> final(self).elements() == old(self).elements() && final(self).open() == old(
                self,
            ).open(),
            final(self).offset() == old(self).offset(),
    {
        let at: usize = self.elements.len();
        let depth: usize = self.open.len();
        if (at > 0 && depth == 0) || at == usize::MAX {
            return false;
        }
        let parent: Option<usize> = if depth > 0 {
            Some(self.open[depth - 1])
        } else {
            None
        };
        let ghost e = self.elements@;
        let ghost open = self.open@;
        let ghost offset = self.offset;
        let x = Element {
            kind: SyntaxKind::Node(kind),
            range: TextRange { start: self.offset, end: self.offset },
            parent,
            end: 0,
            never,
        };
        self.elements.push(x);
        self.open.push(at);
        proof {
            lemma_grow(e, open, offset, x, offset);
        }
        true
    }

    /// Adds a token of kind `kind` and of `len` bytes under the innermost
    /// open node, and tells whether it did: a token needs a node to stand in,
    /// the text must stay within `u32::MAX` bytes and the tree within
    /// `usize::MAX` elements.
    pub fn token(&mut self, kind: TokenKind, len: u32) -> (ok: bool)
        requires
            old(self).wf(),
        ensures
            final(self).wf(),
            ok == (old(self).open().len() > 0 && old(self).offset() + len <= u32::MAX && old(
                self,
            ).elements().len() < usize::MAX),
            ok ==> final(self).elements() == old(self).elements().push(
                Element {
                    kind: SyntaxKind::Token(kind),
                    range: TextRange {
                        start: old(self).offset(),
                        end: (old(self).offset() + len) as u32,
                    },
                    parent: old(self).innermost(),
                    end: (old(self).elements().len() + 1) as usize,
                    never: false,
                },
            ) && final(self).offset() == old(self).offset() + len,
            !ok ==> final(self).elements() == old(self).elements() && final(self).offset() == old(
                self,
            ).offset(),
            final(self).open() == old(self).open(),
    {
        let at: usize = self.elements.len();
        let depth: usize = self.open.len();
        if depth == 0 || len > u32::MAX - self.offset || at == usize::MAX {
            return false;
        }
        let ghost e = self.elements@;
        let ghost open = self.open@;
        let ghost offset = self.offset;
        let end: u32 = self.offset + len;
        let x = Element {
            kind: SyntaxKind::Token(kind),
            range: TextRange { start: self.offset, end },
            parent: Some(self.open[depth - 1]),
            end: at + 1,
            never: false,
        };
        self.elements.push(x);
        self.offset = end;
        proof {
            lemma_grow(e, open, offset, x, end);
        }
        true
    }

    /// Finishes the innermost open node, and tells whether there was one.
    pub fn finish_node(&mut self) -> (ok: bool)
        requires
            old(self).wf(),
        ensures
            final(self).wf(),
            ok == (old(self).open().len() > 0),
            ok ==> {
                let i = old(self).open().last() as int;
                let was = old(self).elements()[i];
                &&& final(self).open() == old(self).open().drop_last()
                &&& final(self).elements() == old(self).elements().update(
                    i,
                    Element {
                        kind: was.kind,
                        range: TextRange { start: was.range.start, end: old(self).offset() },
                        parent: was.parent,
                        end: old(self).elements().len() as usize,
                        never: was.never,
                    },
                )
            },
            !ok ==> final(self).elements() == old(self).elements() && final(self).open() == old(
                self,
            ).open(),
            final(self).offset() == old(self).offset(),
    {
        let i: usize = match self.open.pop() {
            Some(i) => i,
            None => {
                return false;
            },
        };
        let ghost e = self.elements@;
        let ghost open = old(self).open@;
        let was = self.elements[i];
        let x = Element {
            kind: was.kind,
            range: TextRange { start: was.range.start, end: self.offset },
            parent: was.parent,
            end: self.elements.len(),
            never: was.never,
        };
        assert(open[open.len() - 1] == i);
        self.elements.set(i, x);
        proof {
            lemma_close(e, open, self.offset);
        }
        true
    }

    /// The finished tree: there is one when the root was started and every
    /// node was finished.
    pub fn finish(self) -> (r: Option<SyntaxTree>)
        requires
            self.wf(),
        ensures
            r is Some <==> self.elements().len() > 0 && self.open().len() == 0,
            r is Some ==> r->Some_0@ == self.elements(),
    {
        if self.elements.len() == 0 || self.open.len() > 0 {
            return None;
        }
        proof {
            lemma_finished(self.elements@, self.open@, self.offset);
        }
        Some(SyntaxTree::from_elements(self.elements))
    }
}

/// One more element under the innermost open node, or the root of an empty
/// tree: a token, or a node that is open from now on.
proof fn lemma_grow(e: Seq<Element>, open: Seq<usize>, offset: u32, x: Element, after: u32)
    requires
        partial(e, open, offset),
        e.len() < usize::MAX,
        e.len() == 0 || open.len() > 0,
        offset <= after,
        x.range.start == offset,
        x.parent == (if open.len() > 0 {
            Some(open.last())
        } else {
            None
        }),
        x.kind is Token ==> x.end == e.len() + 1 && x.range.end == after && open.len() > 0,
        x.kind is Node ==> x.end == 0 && x.range.end == offset && after == offset,
    ensures
        partial(
            e.push(x),
            if x.kind is Node {
                open.push(e.len() as usize)
            } else {
                open
            },
            after,
        ),
{
    let m = e.len() as int;
    let e2 = e.push(x);
    let open2 = if x.kind is Node {
        open.push(m as usize)
    } else {
        open
    };
    assert forall|i: int| 0 <= i < m implies e2[i] == e[i] by {}
    assert forall|i: int| 0 <= i < m implies reach(e2, i) == (if e[i].end == 0 {
        m + 1
    } else {
        reach(e, i)
    }) by {}
    assert forall|a: int, n: int| holds(e2, a, n) && n < m implies holds(e, a, n) by {
        assert(reach(e, a) == if e[a].end == 0 { m } else { e[a].end as int });
    }
    // whatever holds the new element is open
    assert forall|a: int| #[trigger] holds(e2, a, m) implies e[a].end == 0 by {
        assert(a < reach(e, a) <= m);
    }
    assert forall|i: int| 0 <= i < e2.len() && (#[trigger] e2[i]).end == 0 implies exists|k: int|
        0 <= k < open2.len() && open2[k] == i by {
        if i < m {
            assert(e[i].end == 0);
            let k = choose|k: int| 0 <= k < open.len() && open[k] == i;
            assert(open2[k] == i);
        } else {
            assert(open2[open.len() as int] == m);
        }
    }
    assert forall|k: int| 0 <= k < open2.len() implies (#[trigger] open2[k]) < e2.len()
        && e2[open2[k] as int].end == 0 && e2[open2[k] as int].kind is Node by {
        if k < open.len() {
            assert(open2[k] == open[k]);
        }
    }
    assert forall|j: int, k: int| 0 <= j < k < open2.len() implies open2[j] < open2[k] by {
        if k < open.len() {
            assert(open2[k] == open[k]);
            assert(open2[j] == open[j]);
        } else {
            assert(open2[j] == open[j]);
        }
    }
    assert forall|i: int| 0 <= i < e2.len() implies i < #[trigger] reach(e2, i) <= e2.len() by {
        if i < m {
            assert(i < reach(e, i) <= m);
        }
    }
    assert forall|a: int, n: int| #[trigger] holds(e2, a, n) implies reach(e2, n) <= reach(
        e2,
        a,
    ) by {
        if n < m {
            assert(holds(e, a, n));
            if e[a].end != 0 {
                assert(e[n].end != 0);
            }
        }
    }
    assert forall|a: int, n: int| #[trigger] holds(e2, a, n) && e2[n].end == 0 implies e2[a].end
        == 0 by {
        if n < m {
            assert(holds(e, a, n));
        }
    }
    assert forall|i: int| 0 < i < e2.len() implies #[trigger] linked(e2, i) by {
        if i < m {
            assert(linked(e, i));
            let p = e[i].parent->Some_0 as int;
            assert(holds(e, p, i));
            assert(reach(e, p) <= reach(e2, p));
            assert forall|k: int| p < k < i implies !#[trigger] holds(e2, k, i) by {
                if holds(e2, k, i) {
                    assert(holds(e, k, i));
                }
            }
        } else {
            let p = open.last() as int;
            assert(open[open.len() - 1] == p);
            assert(e[p].end == 0);
            assert forall|k: int| p < k < m implies !#[trigger] holds(e2, k, m) by {
                if holds(e2, k, m) {
                    assert(e[k].end == 0);
                    let j = choose|j: int| 0 <= j < open.len() && open[j] == k;
                    assert(open[j] <= open[open.len() - 1]);
                }
            }
        }
    }
    assert forall|i: int| 0 <= i < e2.len() implies (#[trigger] e2[i]).range.start <= stop(
        e2,
        after,
        i,
    ) <= after by {
        if i < m {
            assert(e[i].range.start <= stop(e, offset, i) <= offset);
        }
    }
    assert forall|a: int, n: int| #[trigger] holds(e2, a, n) implies e2[a].range.start
        <= e2[n].range.start && stop(e2, after, n) <= stop(e2, after, a) by {
        assert(e[a].range.start <= stop(e, offset, a) <= offset);
        if n < m {
            assert(holds(e, a, n));
            assert(e[n].range.start <= stop(e, offset, n) <= offset);
            if e[a].end != 0 {
                assert(e[n].end != 0);
            }
        } else {
            assert(e[a].end == 0);
        }
    }
    if m > 0 {
        assert(open2[0] == open[0]);
    }
}

/// The innermost open node is finished where the elements end.
proof fn lemma_close(e: Seq<Element>, open: Seq<usize>, offset: u32)
    requires
        partial(e, open, offset),
        open.len() > 0,
    ensures
        partial(
            e.update(
                open.last() as int,
                Element {
                    kind: e[open.last() as int].kind,
                    range: TextRange {
                        start: e[open.last() as int].range.start,
                        end: offset,
                    },
                    parent: e[open.last() as int].parent,
                    end: e.len() as usize,
                    never: e[open.last() as int].never,
                },
            ),
            open.drop_last(),
            offset,
        ),
{
    let i = open.last() as int;
    let m = e.len() as int;
    let x = Element {
        kind: e[i].kind,
        range: TextRange { start: e[i].range.start, end: offset },
        parent: e[i].parent,
        end: m as usize,
        never: e[i].never,
    };
    let e2 = e.update(i, x);
    let open2 = open.drop_last();
    assert(open[open.len() - 1] == i);
    assert(e[i].end == 0);
    assert(i < reach(e, i) <= m);
    assert forall|k: int| 0 <= k < m implies reach(e2, k) == reach(e, k) by {}
    assert forall|k: int| 0 <= k < m implies stop(e2, offset, k) == stop(e, offset, k) by {}
    assert forall|a: int, n: int| holds(e2, a, n) == holds(e, a, n) by {
        if 0 <= a < m {
            assert(reach(e2, a) == reach(e, a));
        }
    }
    assert forall|k: int| 0 <= k < open2.len() implies (#[trigger] open2[k]) < e2.len()
        && e2[open2[k] as int].end == 0 && e2[open2[k] as int].kind is Node by {
        assert(open2[k] == open[k]);
        assert(open[k] < open[open.len() - 1]);
    }
    assert forall|j: int, k: int| 0 <= j < k < open2.len() implies open2[j] < open2[k] by {
        assert(open2[k] == open[k]);
        assert(open2[j] == open[j]);
    }
    assert forall|k: int| 0 <= k < e2.len() && (#[trigger] e2[k]).end == 0 implies exists|j: int|
        0 <= j < open2.len() && open2[j] == k by {
        assert(k != i);
        assert(e[k].end == 0);
        let j = choose|j: int| 0 <= j < open.len() && open[j] == k;
        assert(open2[j] == k);
    }
    if open2.len() > 0 {
        assert(open2[0] == open[0]);
    } else {
        assert(open[0] == 0);
    }
    assert forall|k: int| 0 <= k < e2.len() implies k < #[trigger] reach(e2, k) <= e2.len() by {
        assert(k < reach(e, k) <= m);
    }
    assert forall|a: int, n: int| #[trigger] holds(e2, a, n) implies reach(e2, n) <= reach(
        e2,
        a,
    ) by {
        assert(holds(e, a, n));
    }
    assert forall|a: int, n: int| #[trigger] holds(e2, a, n) && e2[n].end == 0 implies e2[a].end
        == 0 by {
        assert(holds(e, a, n));
        assert(n != i);
        if a == i {
            let j = choose|j: int| 0 <= j < open.len() && open[j] == n;
            assert(open[j] <= open[open.len() - 1]);
        }
    }
    assert forall|k: int| 0 < k < e2.len() implies #[trigger] linked(e2, k) by {
        assert(linked(e, k));
        let p = e[k].parent->Some_0 as int;
        assert(holds(e2, p, k) == holds(e, p, k));
        assert forall|j: int| p < j < k implies !#[trigger] holds(e2, j, k) by {
            assert(holds(e2, j, k) == holds(e, j, k));
        }
    }
    assert forall|k: int| 0 <= k < e2.len() implies (#[trigger] e2[k]).range.start <= stop(
        e2,
        offset,
        k,
    ) <= offset by {
        assert(e[k].range.start <= stop(e, offset, k) <= offset);
    }
    assert forall|a: int, n: int| #[trigger] holds(e2, a, n) implies e2[a].range.start
        <= e2[n].range.start && stop(e2, offset, n) <= stop(e2, offset, a) by {
        assert(holds(e, a, n));
    }
}

/// With no node open the elements are a tree.
proof fn lemma_finished(e: Seq<Element>, open: Seq<usize>, offset: u32)
    requires
        partial(e, open, offset),
        e.len() > 0,
        open.len() == 0,
    ensures
        well_formed(e),
{
    assert forall|i: int| 0 <= i < e.len() implies (#[trigger] e[i]).end != 0 by {
        if e[i].end == 0 {
            let k = choose|k: int| 0 <= k < open.len() && open[k] == i;
        }
    }
    assert forall|i: int| 0 <= i < e.len() implies i < (#[trigger] e[i]).end <= e.len() by {
        assert(i < reach(e, i) <= e.len());
    }
    assert forall|a: int, n: int| encloses(e, a, n) == holds(e, a, n) by {
        if 0 <= a < e.len() {
            assert(e[a].end != 0);
        }
    }
    assert forall|a: int, n: int| #[trigger] encloses(e, a, n) implies e[n].end <= e[a].end by {
        assert(holds(e, a, n));
        assert(e[a].end != 0 && e[n].end != 0);
    }
    assert forall|i: int| 0 < i < e.len() implies #[trigger] parent_link(e, i) by {
        assert(linked(e, i));
        let p = e[i].parent->Some_0 as int;
        assert(encloses(e, p, i) == holds(e, p, i));
        assert forall|k: int| p < k < i implies !#[trigger] encloses(e, k, i) by {
            assert(encloses(e, k, i) == holds(e, k, i));
        }
    }
    assert forall|i: int| 0 <= i < e.len() implies (#[trigger] e[i]).range.start
        <= e[i].range.end by {
        assert(e[i].range.start <= stop(e, offset, i));
    }
    assert forall|a: int, n: int| #[trigger] encloses(e, a, n) implies e[a].range.start
        <= e[n].range.start && e[n].range.end <= e[a].range.end by {
        assert(holds(e, a, n));
        assert(e[a].end != 0 && e[n].end != 0);
    }
}

} // verus!
