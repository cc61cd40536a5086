//! The request itself: from the cursor to the highlights.

use crate::classify::{best_token, pick_best_token, route_of, Route};
use crate::exit_points::{exit_highlights, highlight_exit_points};
use crate::references::{highlight_references, lies_within, reference_highlights, Definition};
use crate::text::{shown, HighlightedRange};
use crate::tree::{text_len, Element, SyntaxTree};
use crate::yield_points::{highlight_yield_points, yield_highlights};
use vstd::prelude::*;

verus! {

/// A cursor: a file and an offset into its text.
#[derive(Clone, Copy, Debug)]
pub struct FilePosition {
    pub file_id: u32,
    pub offset: u32,
}

/// The highlights for a cursor at `position` in the tree `t`, where name
/// resolution found `definition` there. The token that the cursor is on
/// decides: `return`, `?` and `->` ask for exit points, `await` and `async`
/// for yield points, every other token for references. On no token there is
/// nothing to highlight.
pub open spec fn related_highlights(
    t: Seq<Element>,
    position: FilePosition,
    definition: Option<Definition>,
) -> Option<Seq<HighlightedRange>> {
    match best_token(t, position.offset) {
        Some(token) => match route_of(t[token as int].kind->Token_0) {
            Route::ExitPoints => exit_highlights(t, token as int),
            Route::YieldPoints => yield_highlights(t, token as int),
            Route::References => reference_highlights(t, definition, position.file_id),
        },
        None => None,
    }
}

/// Idempotence: the highlights are a function of the tree, the position and
/// the resolved definition. Two answers to one request hold the same ranges.
pub proof fn lemma_same_request_same_highlights(
    t: Seq<Element>,
    position: FilePosition,
    definition: Option<Definition>,
    first: Option<Vec<HighlightedRange>>,
    second: Option<Vec<HighlightedRange>>,
)
    requires
        shown(first) == related_highlights(t, position, definition),
        shown(second) == related_highlights(t, position, definition),
    ensures
        first is Some <==> second is Some,
        first is Some ==> first->Some_0@ == second->Some_0@ && first->Some_0@.to_set()
            == second->Some_0@.to_set(),
{
}

/// The ranges related to what stands under the cursor: the references to the
/// same entity on a name, the exit points of the enclosing scope on `return`,
/// `?` or `->`, its yield points on `async` or `await`. Exit points and yield
/// points carry no access and lie within the text; references lie within the
/// text where the declaration and the usages that were found do.
pub fn highlight_related(
    tree: &SyntaxTree,
    position: FilePosition,
    definition: &Option<Definition>,
) -> (r: Option<Vec<HighlightedRange>>)
    ensures
        shown(r) == related_highlights(tree@, position, *definition),
        r is Some && route_of(tree@[best_token(tree@, position.offset)->Some_0 as int].kind->Token_0)
            != Route::References ==> forall|i: int|
            0 <= i < r->Some_0@.len() ==> (#[trigger] r->Some_0@[i]).access is None
                && r->Some_0@[i].range.within(text_len(tree@)),
        r is Some && (definition is Some ==> lies_within(
            definition->Some_0,
            position.file_id,
            text_len(tree@),
        )) ==> forall|i: int|
            0 <= i < r->Some_0@.len() ==> (#[trigger] r->Some_0@[i]).range.within(text_len(tree@)),
{
    let picked = match pick_best_token(tree, position.offset) {
        Some(picked) => picked,
        None => {
            return None;
        },
    };
    match picked.kind.route() {
        Route::ExitPoints => highlight_exit_points(tree, picked.token),
        Route::YieldPoints => highlight_yield_points(tree, picked.token),
        Route::References => highlight_references(tree, definition, position.file_id),
    }
}

} // verus!
