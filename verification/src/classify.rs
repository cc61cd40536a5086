//! Picking the token that a request is about, and the kind of answer that it
//! asks for.

use crate::kind::{SyntaxKind, TokenKind};
use crate::tree::{well_formed, Element, SyntaxTree};
use vstd::prelude::*;

verus! {

/// What a request on a token asks for.
#[derive(Clone, Copy, Debug, PartialEq, Eq, Structural)]
pub enum Route {
    ExitPoints,
    YieldPoints,
    References,
}

/// How much a token counts when several touch the cursor. `?` goes first, so
/// that a cursor between `await` and `?` is on the `?`.
pub open spec fn priority(kind: TokenKind) -> int {
    match kind {
        TokenKind::Question => 2,
        TokenKind::AwaitKw | TokenKind::AsyncKw | TokenKind::ReturnKw | TokenKind::ThinArrow => 1,
        _ => 0,
    }
}

pub open spec fn route_of(kind: TokenKind) -> Route {
    match kind {
        TokenKind::ReturnKw | TokenKind::Question | TokenKind::ThinArrow => Route::ExitPoints,
        TokenKind::AwaitKw | TokenKind::AsyncKw => Route::YieldPoints,
        _ => Route::References,
    }
}

/// The token that a request is about, with its kind.
#[derive(Clone, Copy, Debug, PartialEq, Eq, Structural)]
pub struct ClassifiedToken {
    pub token: usize,
    pub kind: TokenKind,
}

/// How much the element at `i` counts; a node counts for nothing.
pub open spec fn weight(t: Seq<Element>, i: int) -> int {
    match t[i].kind {
        SyntaxKind::Token(kind) => priority(kind),
        SyntaxKind::Node(_) => 0,
    }
}

/// The element at `i` is a token whose range holds the offset or ends at it.
pub open spec fn touching(t: Seq<Element>, i: int, offset: u32) -> bool {
    0 <= i < t.len() && t[i].kind is Token && t[i].range.touches(offset)
}

/// The token at `i` touches the offset, no token that touches it counts for
/// more, and none that counts for as much stands before it.
pub open spec fn is_best_token(t: Seq<Element>, i: int, offset: u32) -> bool {
    &&& touching(t, i, offset)
    &&& forall|j: int| #[trigger]
        touching(t, j, offset) ==> weight(t, j) <= weight(t, i)
    &&& forall|j: int| #[trigger]
        touching(t, j, offset) && weight(t, j) == weight(t, i) ==> i <= j
}

/// The best token among the first `hi` elements.
pub open spec fn best_token_in(t: Seq<Element>, offset: u32, hi: int) -> Option<usize>
    decreases hi,
{
    if hi <= 0 {
        None
    } else {
        let before = best_token_in(t, offset, hi - 1);
        if touching(t, hi - 1, offset) && (before is None || weight(t, before->Some_0 as int)
            < weight(t, hi - 1)) {
            Some((hi - 1) as usize)
        } else {
            before
        }
    }
}

/// The token that a request at `offset` is about, if any token touches it.
pub open spec fn best_token(t: Seq<Element>, offset: u32) -> Option<usize> {
    best_token_in(t, offset, t.len() as int)
}

proof fn lemma_best_token_in(t: Seq<Element>, offset: u32, hi: int)
    requires
        0 <= hi <= t.len() <= usize::MAX,
    ensures
        match best_token_in(t, offset, hi) {
            Some(i) => {
                &&& i < hi
                &&& touching(t, i as int, offset)
                &&& forall|j: int| #[trigger]
                    touching(t, j, offset) && j < hi ==> weight(t, j) <= weight(t, i as int)
                &&& forall|j: int| #[trigger]
                    touching(t, j, offset) && j < hi && weight(t, j) == weight(t, i as int) ==> i
                        <= j
            },
            None => forall|j: int| j < hi ==> !#[trigger] touching(t, j, offset),
        },
    decreases hi,
{
    if hi > 0 {
        lemma_best_token_in(t, offset, hi - 1);
    }
}

/// The token picked is the first of those that count most among the tokens
/// that touch the offset; none is picked only where none touches it.
pub proof fn lemma_best_token(t: Seq<Element>, offset: u32)
    requires
        well_formed(t),
    ensures
        match best_token(t, offset) {
            Some(i) => is_best_token(t, i as int, offset),
            None => forall|j: int| !#[trigger] touching(t, j, offset),
        },
{
    lemma_best_token_in(t, offset, t.len() as int);
}

impl TokenKind {
    pub fn priority(self) -> (r: u8)
        ensures
            r == priority(self),
    {
        match self {
            TokenKind::Question => 2,
            TokenKind::AwaitKw
            | TokenKind::AsyncKw
            | TokenKind::ReturnKw
            | TokenKind::ThinArrow => 1,
            _ => 0,
        }
    }

    pub fn route(self) -> (r: Route)
        ensures
            r == route_of(self),
    {
        match self {
            TokenKind::ReturnKw | TokenKind::Question | TokenKind::ThinArrow => Route::ExitPoints,
            TokenKind::AwaitKw | TokenKind::AsyncKw => Route::YieldPoints,
            _ => Route::References,
        }
    }
}

/// Picks the token at `offset` that the request is about: of all tokens that
/// touch the offset the one that counts most, and of several such the first.
pub fn pick_best_token(tree: &SyntaxTree, offset: u32) -> (r: Option<ClassifiedToken>)
    ensures
        match r {
            Some(c) => best_token(tree@, offset) == Some(c.token) && c.token < tree@.len()
                && tree@[c.token as int].kind == SyntaxKind::Token(c.kind),
            None => best_token(tree@, offset) is None,
        },
{
    let len: usize = tree.len();
    let mut best: Option<ClassifiedToken> = None;
    let mut best_priority: u8 = 0;
    let mut i: usize = 0;
    while i < len
        invariant
            len == tree@.len(),
            i <= len,
            match best {
                Some(c) => best_token_in(tree@, offset, i as int) == Some(c.token) && c.token < i
                    && tree@[c.token as int].kind == SyntaxKind::Token(c.kind) && best_priority
                    == priority(c.kind),
                None => best_token_in(tree@, offset, i as int) is None,
            },
        decreases len - i,
    {
        let e = tree.at(i);
        match e.kind {
            SyntaxKind::Token(kind) => {
                if e.range.is_touched_by(offset) {
                    let p: u8 = kind.priority();
                    if best.is_none() || best_priority < p {
                        best = Some(ClassifiedToken { token: i, kind });
                        best_priority = p;
                    }
                }
            },
            SyntaxKind::Node(_) => {},
        }
        i = i + 1;
    }
    best
}

} // verus!
