//! Related highlights: for a cursor in a parsed file, the ranges that belong
//! with what stands under it. On a name these are the references to the same
//! entity, on `return`, `?` or `->` the exit points of the enclosing function,
//! closure or effect block, on `async` or `await` the yield points of the
//! enclosing async scope.
//!
//! The analysis reads a [`SyntaxTree`], which a [`TreeBuilder`] makes from the
//! events of a preorder traversal of the parser's tree. Parsing, name
//! resolution, the search for usages and type inference are not done here:
//! what they found comes in as plain values, the never type of a call as a
//! mark on its node and the entity under the cursor as a [`Definition`].
//! [`highlight_related`] answers a request; every function states what it
//! returns over the elements of the tree, and the laws that hold of the
//! results stand beside them as proof functions.

pub mod builder;
pub mod classify;
pub mod exit_points;
pub mod kind;
pub mod points;
pub mod references;
pub mod related;
pub mod scope;
pub mod text;
pub mod tree;
pub mod walk;
pub mod yield_points;

pub use crate::builder::TreeBuilder;
pub use crate::classify::{pick_best_token, ClassifiedToken, Route};
pub use crate::exit_points::highlight_exit_points;
pub use crate::kind::{Effect, NodeKind, SyntaxKind, TokenKind};
pub use crate::references::{
    highlight_references, Declaration, Definition, EntityKind, FileReference,
};
pub use crate::related::{highlight_related, FilePosition};
pub use crate::scope::{resolve_domain, Domain, DomainKind, EffectSet};
pub use crate::text::{HighlightedRange, ReferenceAccess, TextRange};
pub use crate::tree::{Child, Element, SyntaxTree};
pub use crate::walk::walk;
pub use crate::yield_points::highlight_yield_points;
