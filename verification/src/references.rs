//! References: the places in one file that name the entity under the cursor.
//! Name resolution and the search for usages are done elsewhere; what they
//! found comes in as a `Definition`.

use crate::kind::{NodeKind, SyntaxKind, TokenKind};
use crate::text::{shown, HighlightedRange, ReferenceAccess, TextRange};
use crate::tree::{
    encloses, first_child, parent_link, text_len, well_formed, Child, Element, SyntaxTree,
};
use vstd::prelude::*;

verus! {

/// What kind of entity a name stands for, as far as its declaration can be
/// an access to it.
#[derive(Clone, Copy, Debug, PartialEq, Eq, Structural)]
pub enum EntityKind {
    /// A local variable or a parameter.
    Local,
    /// A field of a struct, a union or an enum variant.
    Field,
    Other,
}

/// Where an entity is declared.
#[derive(Clone, Copy, Debug)]
pub struct Declaration {
    pub file_id: u32,
    /// The part of the declaration to highlight, as a rule its name.
    pub focus_range: Option<TextRange>,
}

/// One usage of an entity.
#[derive(Clone, Copy, Debug)]
pub struct FileReference {
    pub file_id: u32,
    pub range: TextRange,
    pub access: Option<ReferenceAccess>,
}

/// An entity as name resolution found it: its declaration, where that could
/// be located, and its usages.
#[derive(Debug)]
pub struct Definition {
    pub kind: EntityKind,
    pub declaration: Option<Declaration>,
    pub usages: Vec<FileReference>,
}

/// The element at `i` is a token that begins at `offset` and is not empty.
pub open spec fn begins(t: Seq<Element>, i: int, offset: u32) -> bool {
    0 <= i < t.len() && t[i].kind is Token && t[i].range.start == offset && offset
        < t[i].range.end
}

/// The first token among the first `hi` elements that begins at `offset`.
pub open spec fn token_from_in(t: Seq<Element>, offset: u32, hi: int) -> Option<usize>
    decreases hi,
{
    if hi <= 0 {
        None
    } else {
        match token_from_in(t, offset, hi - 1) {
            Some(i) => Some(i),
            None => if begins(t, hi - 1, offset) {
                Some((hi - 1) as usize)
            } else {
                None
            },
        }
    }
}

/// The token that begins at `offset`.
pub open spec fn token_from(t: Seq<Element>, offset: u32) -> Option<usize> {
    token_from_in(t, offset, t.len() as int)
}

/// The nearest `let` statement around `n`.
pub open spec fn enclosing_let(t: Seq<Element>, n: int) -> Option<usize>
    decreases n,
{
    if 0 <= n < t.len() {
        match t[n].parent {
            Some(p) => if p < n {
                if t[p as int].kind == SyntaxKind::Node(NodeKind::LetStmt) {
                    Some(p)
                } else {
                    enclosing_let(t, p as int)
                }
            } else {
                None
            },
            None => None,
        }
    } else {
        None
    }
}

/// The `let` statement `stmt` binds one name, mutably, and gives it a value.
pub open spec fn binds_and_writes(t: Seq<Element>, stmt: int) -> bool {
    &&& first_child(t, stmt, Child::Expr) is Some
    &&& match first_child(t, stmt, Child::Pat) {
        Some(p) => t[p as int].kind == SyntaxKind::Node(NodeKind::IdentPat) && first_child(
            t,
            p as int,
            Child::Token(TokenKind::MutKw),
        ) is Some,
        None => false,
    }
}

/// How the declaration with the focus range `focus` uses what it declares:
/// the declaration of a local or of a field writes it if the `let` statement
/// around its name binds that one name mutably, with an initializer. No
/// other declaration is an access.
pub open spec fn declaration_access(t: Seq<Element>, kind: EntityKind, focus: TextRange) -> Option<
    ReferenceAccess,
> {
    if kind == EntityKind::Other {
        None
    } else {
        match token_from(t, focus.start) {
            Some(name) => match enclosing_let(t, name as int) {
                Some(stmt) => if binds_and_writes(t, stmt as int) {
                    Some(ReferenceAccess::Write)
                } else {
                    None
                },
                None => None,
            },
            None => None,
        }
    }
}

/// The highlight of the declaration: its focus range, if it is declared in
/// the file `file_id` and has one, with the access that the declaration is.
pub open spec fn declaration_highlight(
    t: Seq<Element>,
    kind: EntityKind,
    declaration: Option<Declaration>,
    file_id: u32,
) -> Option<HighlightedRange> {
    match declaration {
        Some(d) => if d.file_id == file_id && d.focus_range is Some {
            Some(
                HighlightedRange {
                    range: d.focus_range->Some_0,
                    access: declaration_access(t, kind, d.focus_range->Some_0),
                },
            )
        } else {
            None
        },
        None => None,
    }
}

/// The usages in the file `file_id`, each as a highlight with its range and
/// access unchanged, in their order.
pub open spec fn usage_highlights(usages: Seq<FileReference>, file_id: u32) -> Seq<
    HighlightedRange,
>
    decreases usages.len(),
{
    if usages.len() == 0 {
        Seq::empty()
    } else {
        let rest = usage_highlights(usages.drop_last(), file_id);
        let last = usages.last();
        if last.file_id == file_id {
            rest.push(HighlightedRange { range: last.range, access: last.access })
        } else {
            rest
        }
    }
}

/// The highlights for a resolved entity: its declaration, then its usages.
pub open spec fn definition_highlights(
    t: Seq<Element>,
    definition: Definition,
    file_id: u32,
) -> Seq<HighlightedRange> {
    let usages = usage_highlights(definition.usages@, file_id);
    match declaration_highlight(t, definition.kind, definition.declaration, file_id) {
        Some(h) => seq![h] + usages,
        None => usages,
    }
}

/// The highlights for what name resolution found; absent where it found no
/// entity.
pub open spec fn reference_highlights(
    t: Seq<Element>,
    definition: Option<Definition>,
    file_id: u32,
) -> Option<Seq<HighlightedRange>> {
    match definition {
        Some(d) => Some(definition_highlights(t, d, file_id)),
        None => None,
    }
}

/// The token found begins at the offset, and no token before it does; none
/// is found only where none begins there.
pub proof fn lemma_token_from(t: Seq<Element>, offset: u32, hi: int)
    requires
        0 <= hi <= t.len() <= usize::MAX,
    ensures
        match token_from_in(t, offset, hi) {
            Some(i) => i < hi && begins(t, i as int, offset) && forall|j: int|
                0 <= j < i ==> !begins(t, j, offset),
            None => forall|j: int| 0 <= j < hi ==> !begins(t, j, offset),
        },
    decreases hi,
{
    if hi > 0 {
        lemma_token_from(t, offset, hi - 1);
    }
}

/// The `let` statement found for `n` is the nearest around it.
pub proof fn lemma_enclosing_let(t: Seq<Element>, n: int)
    requires
        well_formed(t),
        0 <= n < t.len(),
    ensures
        match enclosing_let(t, n) {
            Some(s) => {
                &&& encloses(t, s as int, n)
                &&& t[s as int].kind == SyntaxKind::Node(NodeKind::LetStmt)
                &&& forall|a: int|
                    s < a && #[trigger] encloses(t, a, n) ==> t[a].kind != SyntaxKind::Node(
                        NodeKind::LetStmt,
                    )
            },
            None => forall|a: int| #[trigger]
                encloses(t, a, n) ==> t[a].kind != SyntaxKind::Node(NodeKind::LetStmt),
        },
    decreases n,
{
    if n > 0 {
        assert(parent_link(t, n));
        let p = t[n].parent->Some_0 as int;
        assert(encloses(t, p, n));
        assert forall|a: int| #[trigger] encloses(t, a, n) && a != p implies encloses(t, a, p) by {
            if a > p {
                assert(!encloses(t, a, n));
            }
        }
        if t[p].kind != SyntaxKind::Node(NodeKind::LetStmt) {
            lemma_enclosing_let(t, p);
            match enclosing_let(t, p) {
                Some(s) => {
                    assert(encloses(t, s as int, p));
                    assert(t[p].end <= t[s as int].end);
                },
                None => {},
            }
        }
    }
}

impl SyntaxTree {
    /// The token that begins at `offset`.
    pub fn token_from(&self, offset: u32) -> (r: Option<usize>)
        ensures
            r == token_from(self@, offset),
            r is Some ==> r->Some_0 < self@.len(),
    {
        let len: usize = self.len();
        let mut i: usize = 0;
        while i < len
            invariant
                len == self@.len(),
                i <= len,
                token_from_in(self@, offset, i as int) is None,
            decreases len - i,
        {
            let e = self.at(i);
            match e.kind {
                SyntaxKind::Token(_) => {
                    if e.range.start == offset && offset < e.range.end {
                        proof {
                            lemma_token_from_after(self@, offset, i as int + 1, len as int);
                        }
                        return Some(i);
                    }
                },
                SyntaxKind::Node(_) => {},
            }
            i = i + 1;
        }
        None
    }

    /// The nearest `let` statement around `node`.
    pub fn enclosing_let(&self, node: usize) -> (r: Option<usize>)
        ensures
            r == enclosing_let(self@, node as int),
            r is Some ==> r->Some_0 < self@.len(),
    {
        if node >= self.len() {
            return None;
        }
        let mut cur: usize = node;
        loop
            invariant
                well_formed(self@),
                cur < self@.len(),
                enclosing_let(self@, node as int) == enclosing_let(self@, cur as int),
            decreases cur,
        {
            match self.at(cur).parent {
                None => {
                    return None;
                },
                Some(p) => {
                    proof {
                        assert(cur > 0);
                        assert(parent_link(self@, cur as int));
                        assert(encloses(self@, p as int, cur as int));
                    }
                    match self.at(p).kind {
                        SyntaxKind::Node(NodeKind::LetStmt) => {
                            return Some(p);
                        },
                        _ => {},
                    }
                    cur = p;
                },
            }
        }
    }

    /// How the declaration with the focus range `focus` uses what it
    /// declares.
    pub fn declaration_access(&self, kind: EntityKind, focus: TextRange) -> (r: Option<
        ReferenceAccess,
    >)
        ensures
            r == declaration_access(self@, kind, focus),
    {
        match kind {
            EntityKind::Other => {
                return None;
            },
            _ => {},
        }
        let name = match self.token_from(focus.start) {
            Some(name) => name,
            None => {
                return None;
            },
        };
        let stmt = match self.enclosing_let(name) {
            Some(stmt) => stmt,
            None => {
                return None;
            },
        };
        if self.first_child(stmt, Child::Expr).is_none() {
            return None;
        }
        match self.first_child(stmt, Child::Pat) {
            Some(pat) => match self.at(pat).kind {
                SyntaxKind::Node(NodeKind::IdentPat) => {
                    if self.first_child(pat, Child::Token(TokenKind::MutKw)).is_some() {
                        Some(ReferenceAccess::Write)
                    } else {
                        None
                    }
                },
                _ => None,
            },
            None => None,
        }
    }
}

/// Once a token is found, the search over more elements finds the same.
proof fn lemma_token_from_after(t: Seq<Element>, offset: u32, lo: int, hi: int)
    requires
        0 < lo <= hi,
        token_from_in(t, offset, lo) is Some,
    ensures
        token_from_in(t, offset, hi) == token_from_in(t, offset, lo),
    decreases hi - lo,
{
    if lo < hi {
        lemma_token_from_after(t, offset, lo, hi - 1);
    }
}

/// What was found for the file `file_id` lies within a text of `len` bytes:
/// the focus range of the declaration, if it stands in that file, and every
/// usage in that file.
pub open spec fn lies_within(definition: Definition, file_id: u32, len: u32) -> bool {
    &&& match definition.declaration {
        Some(d) => d.file_id == file_id && d.focus_range is Some ==> d.focus_range->Some_0.within(
            len,
        ),
        None => true,
    }
    &&& forall|j: int|
        0 <= j < definition.usages@.len() && (#[trigger] definition.usages@[j]).file_id == file_id
            ==> definition.usages@[j].range.within(len)
}

/// Ranges are handed on unchanged: where what was found for the file lies
/// within its text, so does every highlight.
pub proof fn lemma_reference_highlights_within(
    t: Seq<Element>,
    definition: Definition,
    file_id: u32,
    len: u32,
    i: int,
)
    requires
        lies_within(definition, file_id, len),
        0 <= i < definition_highlights(t, definition, file_id).len(),
    ensures
        definition_highlights(t, definition, file_id)[i].range.within(len),
{
    let usages = usage_highlights(definition.usages@, file_id);
    lemma_usage_highlights(definition.usages@, file_id);
    match declaration_highlight(t, definition.kind, definition.declaration, file_id) {
        Some(h) => {
            if i > 0 {
                assert(definition_highlights(t, definition, file_id)[i] == usages[i - 1]);
            }
        },
        None => {},
    }
}

/// Usages in other files are left out, and none in the file is: every
/// highlight is a usage in the file, and every usage in the file is
/// highlighted.
pub proof fn lemma_usage_highlights(usages: Seq<FileReference>, file_id: u32)
    ensures
        forall|i: int|
            0 <= i < usage_highlights(usages, file_id).len() ==> exists|j: int|
                0 <= j < usages.len() && usages[j].file_id == file_id && (#[trigger] usage_highlights(
                    usages,
                    file_id,
                )[i]) == (HighlightedRange { range: usages[j].range, access: usages[j].access }),
        forall|j: int|
            0 <= j < usages.len() && (#[trigger] usages[j]).file_id == file_id ==> usage_highlights(
                usages,
                file_id,
            ).contains(HighlightedRange { range: usages[j].range, access: usages[j].access }),
    decreases usages.len(),
{
    if usages.len() > 0 {
        let front = usages.drop_last();
        lemma_usage_highlights(front, file_id);
        let rest = usage_highlights(front, file_id);
        let all = usage_highlights(usages, file_id);
        let last = usages.len() - 1;
        assert forall|i: int| 0 <= i < all.len() implies exists|j: int|
            0 <= j < usages.len() && usages[j].file_id == file_id && (#[trigger] all[i]) == (
            HighlightedRange { range: usages[j].range, access: usages[j].access }) by {
            if i < rest.len() {
                assert(all[i] == rest[i]);
                let j = choose|j: int|
                    0 <= j < front.len() && front[j].file_id == file_id && rest[i] == (
                    HighlightedRange { range: front[j].range, access: front[j].access });
                assert(usages[j] == front[j]);
            } else {
                assert(usages[last].file_id == file_id);
            }
        }
        assert forall|j: int|
            0 <= j < usages.len() && (#[trigger] usages[j]).file_id == file_id implies all.contains(
            HighlightedRange { range: usages[j].range, access: usages[j].access },
        ) by {
            let h = HighlightedRange { range: usages[j].range, access: usages[j].access };
            if j < last {
                assert(front[j] == usages[j]);
                assert(rest.contains(h));
                let i = choose|i: int| 0 <= i < rest.len() && rest[i] == h;
                assert(all[i] == h);
            } else {
                assert(all[all.len() - 1] == h);
            }
        }
    }
}

/// The highlights for the entity that the cursor is on: its declaration, if
/// it stands in the file `file_id` and has a focus range, and its usages in
/// that file. `tree` is the tree of that file. Absent where the cursor is on
/// no entity.
pub fn highlight_references(
    tree: &SyntaxTree,
    definition: &Option<Definition>,
    file_id: u32,
) -> (r: Option<Vec<HighlightedRange>>)
    ensures
        shown(r) == reference_highlights(tree@, *definition, file_id),
        r is Some && lies_within(definition->Some_0, file_id, text_len(tree@)) ==> forall|i: int|
            0 <= i < r->Some_0@.len() ==> (#[trigger] r->Some_0@[i]).range.within(text_len(tree@)),
{
    let def = match definition {
        Some(def) => def,
        None => {
            return None;
        },
    };
    let mut res: Vec<HighlightedRange> = Vec::new();
    match def.declaration {
        Some(decl) => {
            if decl.file_id == file_id {
                match decl.focus_range {
                    Some(range) => {
                        let access = tree.declaration_access(def.kind, range);
                        res.push(HighlightedRange { range, access });
                    },
                    None => {},
                }
            }
        },
        None => {},
    }
    let ghost first = res@;
    let mut k: usize = 0;
    assert(res@ =~= first + usage_highlights(def.usages@.take(0), file_id));
    while k < def.usages.len()
        invariant
            k <= def.usages@.len(),
            res@ == first + usage_highlights(def.usages@.take(k as int), file_id),
        decreases def.usages@.len() - k,
    {
        let usage = def.usages[k];
        proof {
            let next = def.usages@.take(k + 1);
            assert(next.drop_last() =~= def.usages@.take(k as int));
            assert(next.last() == usage);
        }
        if usage.file_id == file_id {
            res.push(HighlightedRange { range: usage.range, access: usage.access });
            assert(res@ =~= first + usage_highlights(def.usages@.take(k + 1), file_id));
        }
        k = k + 1;
    }
    proof {
        assert(def.usages@.take(k as int) =~= def.usages@);
        assert(res@ =~= definition_highlights(tree@, *def, file_id));
        if lies_within(*def, file_id, text_len(tree@)) {
            assert forall|i: int| 0 <= i < res@.len() implies (#[trigger] res@[i]).range.within(
                text_len(tree@),
            ) by {
                lemma_reference_highlights_within(tree@, *def, file_id, text_len(tree@), i);
            }
        }
    }
    Some(res)
}

} // verus!
