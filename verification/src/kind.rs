//! The kinds of tokens and nodes that the analysis tells apart.

use vstd::prelude::*;

verus! {

/// The kind of a token. Every token that the analysis does not read is
/// `Other`.
#[derive(Clone, Copy, Debug, PartialEq, Eq, Structural)]
pub enum TokenKind {
    /// `return`
    ReturnKw,
    /// `?`
    Question,
    /// `->`
    ThinArrow,
    /// `await`
    AwaitKw,
    /// `async`
    AsyncKw,
    /// `try`
    TryKw,
    /// `const`
    ConstKw,
    /// `unsafe`
    UnsafeKw,
    /// `mut`
    MutKw,
    Other,
}

/// The kind of a node. A statement wraps its expression: a block's direct
/// child expression is its trailing one.
#[derive(Clone, Copy, Debug, PartialEq, Eq, Structural)]
pub enum NodeKind {
    /// A function definition. It is an item as well.
    Fn,
    ClosureExpr,
    /// A block with a qualifier in front: `async`, `try`, `const`, `unsafe`
    /// or a label.
    EffectExpr,
    BlockExpr,
    ReturnExpr,
    /// An expression followed by `?`.
    TryExpr,
    AwaitExpr,
    CallExpr,
    MethodCallExpr,
    MacroCall,
    /// Any other expression.
    OtherExpr,
    LetStmt,
    ExprStmt,
    /// Any item but a function.
    Item,
    /// A pattern that binds a name: `x`, `mut x`, `ref x`.
    IdentPat,
    /// Any other pattern.
    Pat,
    /// Any other node: a type, an argument list.
    Other,
}

#[derive(Clone, Copy, Debug, PartialEq, Eq, Structural)]
pub enum SyntaxKind {
    Node(NodeKind),
    Token(TokenKind),
}

/// What the qualifier of an effect block makes of it.
#[derive(Clone, Copy, Debug, PartialEq, Eq, Structural)]
pub enum Effect {
    Async,
    Unsafe,
    Try,
    Const,
    /// No qualifier token: a labelled block.
    Plain,
}

impl Effect {
    /// `async`, `try` and `const` blocks are scopes of their own: what leaves
    /// or suspends inside one does so with respect to the block.
    pub open spec fn opens_scope(self) -> bool {
        self == Effect::Async || self == Effect::Try || self == Effect::Const
    }

    pub fn scope(self) -> (r: bool)
        ensures
            r == self.opens_scope(),
    {
        match self {
            Effect::Async | Effect::Try | Effect::Const => true,
            _ => false,
        }
    }
}

impl NodeKind {
    pub open spec fn is_expr(self) -> bool {
        match self {
            NodeKind::ClosureExpr
            | NodeKind::EffectExpr
            | NodeKind::BlockExpr
            | NodeKind::ReturnExpr
            | NodeKind::TryExpr
            | NodeKind::AwaitExpr
            | NodeKind::CallExpr
            | NodeKind::MethodCallExpr
            | NodeKind::MacroCall
            | NodeKind::OtherExpr => true,
            _ => false,
        }
    }

    pub open spec fn is_item(self) -> bool {
        self == NodeKind::Fn || self == NodeKind::Item
    }

    pub open spec fn is_pat(self) -> bool {
        self == NodeKind::IdentPat || self == NodeKind::Pat
    }

    /// A function call, a method call or a macro invocation.
    pub open spec fn is_call_like(self) -> bool {
        self == NodeKind::CallExpr || self == NodeKind::MethodCallExpr || self
            == NodeKind::MacroCall
    }

    pub fn expr(self) -> (r: bool)
        ensures
            r == self.is_expr(),
    {
        match self {
            NodeKind::ClosureExpr
            | NodeKind::EffectExpr
            | NodeKind::BlockExpr
            | NodeKind::ReturnExpr
            | NodeKind::TryExpr
            | NodeKind::AwaitExpr
            | NodeKind::CallExpr
            | NodeKind::MethodCallExpr
            | NodeKind::MacroCall
            | NodeKind::OtherExpr => true,
            _ => false,
        }
    }

    pub fn item(self) -> (r: bool)
        ensures
            r == self.is_item(),
    {
        match self {
            NodeKind::Fn | NodeKind::Item => true,
            _ => false,
        }
    }

    pub fn pat(self) -> (r: bool)
        ensures
            r == self.is_pat(),
    {
        match self {
            NodeKind::IdentPat | NodeKind::Pat => true,
            _ => false,
        }
    }

    pub fn call_like(self) -> (r: bool)
        ensures
            r == self.is_call_like(),
    {
        match self {
            NodeKind::CallExpr | NodeKind::MethodCallExpr | NodeKind::MacroCall => true,
            _ => false,
        }
    }
}

impl SyntaxKind {
    pub open spec fn is_expr(self) -> bool {
        match self {
            SyntaxKind::Node(k) => k.is_expr(),
            SyntaxKind::Token(_) => false,
        }
    }

    pub fn expr(self) -> (r: bool)
        ensures
            r == self.is_expr(),
    {
        match self {
            SyntaxKind::Node(k) => k.expr(),
            SyntaxKind::Token(_) => false,
        }
    }
}

} // verus!
