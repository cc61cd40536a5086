use highlight_related::{
    highlight_related, pick_best_token, Declaration, Definition, EntityKind, FilePosition,
    FileReference, HighlightedRange, NodeKind, ReferenceAccess, Route, SyntaxTree, TextRange,
    TokenKind, TreeBuilder,
};
use ra_ap_hir::{
    Adt, FieldSource, GenericParam, HasSource, InFile, ModuleDef, ModuleSource, Semantics,
};
use ra_ap_ide_db::base_db::fixture::ChangeFixture;
use ra_ap_ide_db::base_db::{FileId, SourceDatabaseExt};
use ra_ap_ide_db::defs::{Definition as Entity, NameClass, NameRefClass};
use ra_ap_ide_db::search::{ReferenceAccess as Access, SearchScope};
use ra_ap_ide_db::RootDatabase;
use ra_ap_syntax::ast::{self, NameOwner};
use ra_ap_syntax::{AstNode, NodeOrToken, SourceFile, SyntaxKind, SyntaxNode, TextSize, WalkEvent};

// From the parser's tree to the tree of the analysis.

fn node_kind(kind: SyntaxKind) -> NodeKind {
    match kind {
        SyntaxKind::FN => NodeKind::Fn,
        SyntaxKind::CLOSURE_EXPR => NodeKind::ClosureExpr,
        SyntaxKind::EFFECT_EXPR => NodeKind::EffectExpr,
        SyntaxKind::BLOCK_EXPR => NodeKind::BlockExpr,
        SyntaxKind::RETURN_EXPR => NodeKind::ReturnExpr,
        SyntaxKind::TRY_EXPR => NodeKind::TryExpr,
        SyntaxKind::AWAIT_EXPR => NodeKind::AwaitExpr,
        SyntaxKind::CALL_EXPR => NodeKind::CallExpr,
        SyntaxKind::METHOD_CALL_EXPR => NodeKind::MethodCallExpr,
        SyntaxKind::MACRO_CALL => NodeKind::MacroCall,
        SyntaxKind::LET_STMT => NodeKind::LetStmt,
        SyntaxKind::EXPR_STMT => NodeKind::ExprStmt,
        SyntaxKind::IDENT_PAT => NodeKind::IdentPat,
        kind if ast::Expr::can_cast(kind) => NodeKind::OtherExpr,
        kind if ast::Item::can_cast(kind) => NodeKind::Item,
        kind if ast::Pat::can_cast(kind) => NodeKind::Pat,
        _ => NodeKind::Other,
    }
}

fn token_kind(kind: SyntaxKind) -> TokenKind {
    match kind {
        SyntaxKind::RETURN_KW => TokenKind::ReturnKw,
        SyntaxKind::QUESTION => TokenKind::Question,
        SyntaxKind::THIN_ARROW => TokenKind::ThinArrow,
        SyntaxKind::AWAIT_KW => TokenKind::AwaitKw,
        SyntaxKind::ASYNC_KW => TokenKind::AsyncKw,
        SyntaxKind::TRY_KW => TokenKind::TryKw,
        SyntaxKind::CONST_KW => TokenKind::ConstKw,
        SyntaxKind::UNSAFE_KW => TokenKind::UnsafeKw,
        SyntaxKind::MUT_KW => TokenKind::MutKw,
        _ => TokenKind::Other,
    }
}

/// Builds the tree of the file with the root `root`. `never` is asked of
/// each call, method call and macro call whether its type is the never type.
fn to_tree(root: &SyntaxNode, never: &dyn Fn(&ast::Expr) -> bool) -> SyntaxTree {
    let mut builder = TreeBuilder::new();
    for event in root.preorder_with_tokens() {
        match event {
            WalkEvent::Enter(NodeOrToken::Node(node)) => {
                let kind = node_kind(node.kind());
                let diverges = match kind {
                    NodeKind::CallExpr | NodeKind::MethodCallExpr | NodeKind::MacroCall => {
                        ast::Expr::cast(node).map_or(false, |expr| never(&expr))
                    }
                    _ => false,
                };
                assert!(builder.start_node(kind, diverges));
            }
            WalkEvent::Enter(NodeOrToken::Token(token)) => {
                let len = u32::from(token.text_range().len());
                assert!(builder.token(token_kind(token.kind()), len));
            }
            WalkEvent::Leave(NodeOrToken::Node(_)) => assert!(builder.finish_node()),
            WalkEvent::Leave(NodeOrToken::Token(_)) => {}
        }
    }
    builder.finish().expect("the traversal closes every node")
}

/// The tree of `text` without any types.
fn tree_of(text: &str) -> SyntaxTree {
    to_tree(&SourceFile::parse(text).syntax_node(), &|_: &ast::Expr| false)
}

// What name resolution and the usage search know about the entity under the
// cursor.

fn range(range: ra_ap_syntax::TextRange) -> TextRange {
    TextRange { start: range.start().into(), end: range.end().into() }
}

fn access(access: Access) -> ReferenceAccess {
    match access {
        Access::Read => ReferenceAccess::Read,
        Access::Write => ReferenceAccess::Write,
    }
}

fn definition(
    sema: &Semantics<RootDatabase>,
    syntax: &SyntaxNode,
    file: FileId,
    offset: TextSize,
) -> Option<Definition> {
    let def = find_def(sema, syntax, offset)?;
    let usages = def.usages(sema).set_scope(Some(SearchScope::single_file(file))).all();
    let kind = match def {
        Entity::Local(_) => EntityKind::Local,
        Entity::Field(_) => EntityKind::Field,
        _ => EntityKind::Other,
    };
    let declaration = declaration(sema.db, def).map(|(file_id, focus_range)| Declaration {
        file_id: file_id.0,
        focus_range: focus_range.map(range),
    });
    let usages = usages
        .references
        .iter()
        .flat_map(|(file_id, refs)| {
            refs.iter().map(move |it| FileReference {
                file_id: file_id.0,
                range: range(it.range),
                access: it.access.map(access),
            })
        })
        .collect();
    Some(Definition { kind, declaration, usages })
}

fn find_def(
    sema: &Semantics<RootDatabase>,
    syntax: &SyntaxNode,
    offset: TextSize,
) -> Option<Entity> {
    let def = match sema.find_node_at_offset_with_descend(syntax, offset)? {
        ast::NameLike::NameRef(name_ref) => {
            NameRefClass::classify(sema, &name_ref)?.referenced(sema.db)
        }
        ast::NameLike::Name(name) => {
            NameClass::classify(sema, &name)?.referenced_or_defined(sema.db)
        }
        ast::NameLike::Lifetime(lifetime) => NameRefClass::classify_lifetime(sema, &lifetime)
            .map(|class| class.referenced(sema.db))
            .or_else(|| {
                NameClass::classify_lifetime(sema, &lifetime)
                    .map(|class| class.referenced_or_defined(sema.db))
            })?,
    };
    Some(def)
}

type Located = (FileId, Option<ra_ap_syntax::TextRange>);

fn located(db: &RootDatabase, node: InFile<&SyntaxNode>, focus: Option<&SyntaxNode>) -> Located {
    let full = node.original_file_range(db);
    let focus = focus.map(|it| node.with_value(it).original_file_range(db).range);
    (full.file_id, focus)
}

fn named<N: NameOwner>(db: &RootDatabase, src: InFile<N>) -> Located {
    let name = src.value.name();
    located(db, src.as_ref().map(|it| it.syntax()), name.as_ref().map(|it| it.syntax()))
}

fn declaration(db: &RootDatabase, def: Entity) -> Option<Located> {
    let res = match def {
        Entity::Macro(it) => {
            let src = it.source(db)?;
            let (node, name) = src.value.as_ref().either(
                |it| match it {
                    ast::Macro::MacroRules(it) => (it.syntax().clone(), it.name()),
                    ast::Macro::MacroDef(it) => (it.syntax().clone(), it.name()),
                },
                |it| (it.syntax().clone(), it.name()),
            );
            located(db, src.with_value(&node), name.as_ref().map(|it| it.syntax()))
        }
        Entity::Field(it) => {
            let src = it.source(db)?;
            match &src.value {
                FieldSource::Named(field) => named(db, src.with_value(field.clone())),
                FieldSource::Pos(field) => located(db, src.with_value(field.syntax()), None),
            }
        }
        Entity::ModuleDef(it) => match it {
            ModuleDef::Module(it) => match it.declaration_source(db) {
                Some(src) => named(db, src),
                None => {
                    let src = it.definition_source(db);
                    match &src.value {
                        ModuleSource::SourceFile(node) => {
                            located(db, src.with_value(node.syntax()), None)
                        }
                        ModuleSource::Module(node) => named(db, src.with_value(node.clone())),
                        ModuleSource::BlockExpr(node) => {
                            located(db, src.with_value(node.syntax()), None)
                        }
                    }
                }
            },
            ModuleDef::Function(it) => named(db, it.source(db)?),
            ModuleDef::Adt(Adt::Struct(it)) => named(db, it.source(db)?),
            ModuleDef::Adt(Adt::Union(it)) => named(db, it.source(db)?),
            ModuleDef::Adt(Adt::Enum(it)) => named(db, it.source(db)?),
            ModuleDef::Variant(it) => named(db, it.source(db)?),
            ModuleDef::Const(it) => named(db, it.source(db)?),
            ModuleDef::Static(it) => named(db, it.source(db)?),
            ModuleDef::Trait(it) => named(db, it.source(db)?),
            ModuleDef::TypeAlias(it) => named(db, it.source(db)?),
            ModuleDef::BuiltinType(_) => return None,
        },
        Entity::SelfType(it) => {
            let src = it.source(db)?;
            let self_ty = src.value.self_ty();
            located(db, src.as_ref().map(|it| it.syntax()), self_ty.as_ref().map(|it| it.syntax()))
        }
        Entity::Local(it) => {
            let src = it.source(db);
            let node = src.value.as_ref().either(
                |pat| pat.name().map_or_else(|| pat.syntax().clone(), |it| it.syntax().clone()),
                |it| it.syntax().clone(),
            );
            located(db, src.with_value(&node), Some(&node))
        }
        Entity::GenericParam(it) => match it {
            GenericParam::TypeParam(it) => {
                let src = it.source(db)?;
                let name = src.value.as_ref().either(|it| it.name(), |it| it.name());
                let node = src.value.as_ref().either(|it| it.syntax(), |it| it.syntax());
                located(db, src.with_value(node), name.as_ref().map(|it| it.syntax()))
            }
            GenericParam::LifetimeParam(it) => {
                let src = it.source(db)?;
                located(db, src.as_ref().map(|it| it.syntax()), None)
            }
            GenericParam::ConstParam(it) => named(db, it.source(db)?),
        },
        Entity::Label(it) => {
            let src = it.source(db);
            let lifetime = src.value.lifetime();
            located(db, src.as_ref().map(|it| it.syntax()), lifetime.as_ref().map(|it| it.syntax()))
        }
    };
    Some(res)
}

/// The highlights for a cursor, with the parser, name resolution, the usage
/// search and type inference asked for what the analysis needs.
fn related(
    sema: &Semantics<RootDatabase>,
    file: FileId,
    offset: TextSize,
) -> Option<Vec<HighlightedRange>> {
    let syntax = sema.parse(file).syntax().clone();
    let untyped = to_tree(&syntax, &|_: &ast::Expr| false);
    let route = pick_best_token(&untyped, offset.into())?.kind.route();
    let tree = match route {
        Route::ExitPoints => to_tree(&syntax, &|expr: &ast::Expr| {
            sema.type_of_expr(expr).map_or(false, |ty| ty.is_never())
        }),
        Route::YieldPoints | Route::References => untyped,
    };
    let definition = match route {
        Route::References => definition(sema, &syntax, file, offset),
        Route::ExitPoints | Route::YieldPoints => None,
    };
    let position = FilePosition { file_id: file.0, offset: offset.into() };
    highlight_related(&tree, position, &definition)
}

// Fixtures: files with a cursor `$0`, and lines of the form `// ^^^ label`
// that mark what is expected in the line above.

fn annotations(text: &str) -> Vec<((u32, u32), Option<String>)> {
    let mut res = Vec::new();
    let mut prev_line_start = 0usize;
    let mut line_start = 0usize;
    for line in text.split_inclusive('\n') {
        if let Some(idx) = line.find("//") {
            let rest = &line[idx + 2..];
            if let Some(first) = rest.find('^') {
                let len = rest[first..].chars().take_while(|c| *c == '^').count();
                let label = rest[first + len..].trim().to_string();
                let start = prev_line_start + idx + 2 + first;
                let label = if label.is_empty() { None } else { Some(label) };
                res.push(((start as u32, (start + len) as u32), label));
            }
        }
        prev_line_start = line_start;
        line_start += line.len();
    }
    res
}

fn sorted(hls: Vec<HighlightedRange>) -> Vec<((u32, u32), Option<String>)> {
    let mut actual = hls
        .into_iter()
        .map(|hl| {
            (
                (hl.range.start, hl.range.end),
                hl.access.map(|it| {
                    match it {
                        ReferenceAccess::Read => "read",
                        ReferenceAccess::Write => "write",
                    }
                    .to_string()
                }),
            )
        })
        .collect::<Vec<_>>();
    actual.sort_by_key(|(range, _)| range.0);
    actual
}

fn check(ra_fixture: &str) {
    let fixture = ChangeFixture::parse(ra_fixture);
    let mut db = RootDatabase::default();
    fixture.change.apply(&mut db);
    let (file, cursor) = fixture.file_position.expect("expected a marker ($0)");
    let offset = cursor.expect_offset();
    let sema = Semantics::new(&db);
    let hls = related(&sema, file, offset).unwrap();

    let mut expected = Vec::new();
    for file in fixture.files.iter() {
        expected.extend(annotations(&db.file_text(*file)));
    }
    let actual = sorted(hls);
    expected.sort_by_key(|(range, _)| range.0);
    assert_eq!(expected, actual);
}

#[test]
fn test_hl_module() {
    check(
        r#"
//- /lib.rs
mod foo$0;
 // ^^^
//- /foo.rs
struct Foo;
"#,
    );
}

#[test]
fn test_hl_self_in_crate_root() {
    check(
        r#"
use self$0;
"#,
    );
}

#[test]
fn test_hl_self_in_module() {
    check(
        r#"
//- /lib.rs
mod foo;
//- /foo.rs
use self$0;
"#,
    );
}

#[test]
fn test_hl_local() {
    check(
        r#"
fn foo() {
    let mut bar = 3;
         // ^^^ write
    bar$0;
 // ^^^ read
}
"#,
    );
}

#[test]
fn test_hl_yield_points() {
    check(
        r#"
pub async fn foo() {
 // ^^^^^
    let x = foo()
        .await$0
      // ^^^^^
        .await;
      // ^^^^^
    || { 0.await };
    (async { 0.await }).await
                     // ^^^^^
}
"#,
    );
}

#[test]
fn test_hl_yield_points2() {
    check(
        r#"
pub async$0 fn foo() {
 // ^^^^^
    let x = foo()
        .await
      // ^^^^^
        .await;
      // ^^^^^
    || { 0.await };
    (async { 0.await }).await
                     // ^^^^^
}
"#,
    );
}

#[test]
fn test_hl_yield_nested_fn() {
    check(
        r#"
async fn foo() {
    async fn foo2() {
 // ^^^^^
        async fn foo3() {
            0.await
        }
        0.await$0
       // ^^^^^
    }
    0.await
}
"#,
    );
}

#[test]
fn test_hl_yield_nested_async_blocks() {
    check(
        r#"
async fn foo() {
    (async {
  // ^^^^^
        (async {
           0.await
        }).await$0 }
        // ^^^^^
    ).await;
}
"#,
    );
}

#[test]
fn test_hl_exit_points() {
    check(
        r#"
fn foo() -> u32 {
    if true {
        return$0 0;
     // ^^^^^^
    }

    0?;
  // ^
    0xDEAD_BEEF
 // ^^^^^^^^^^^
}
"#,
    );
}

#[test]
fn test_hl_exit_points2() {
    check(
        r#"
fn foo() ->$0 u32 {
    if true {
        return 0;
     // ^^^^^^
    }

    0?;
  // ^
    0xDEAD_BEEF
 // ^^^^^^^^^^^
}
"#,
    );
}

#[test]
fn test_hl_prefer_ref_over_tail_exit() {
    check(
        r#"
fn foo() -> u32 {
// ^^^
    if true {
        return 0;
    }

    0?;

    foo$0()
 // ^^^
}
"#,
    );
}

#[test]
fn test_hl_never_call_is_exit_point() {
    check(
        r#"
struct Never;
impl Never {
    fn never(self) -> ! { loop {} }
}
macro_rules! never {
    () => { never() }
}
fn never() -> ! { loop {} }
fn foo() ->$0 u32 {
    never();
 // ^^^^^^^
    never!();
 // FIXME sema doesn't give us types for macrocalls

    Never.never();
 // ^^^^^^^^^^^^^

    0
 // ^
}
"#,
    );
}

fn plain(range: TextRange) -> HighlightedRange {
    HighlightedRange { range, access: None }
}

/// The range of the `n`th occurrence of `what` in `text`.
fn nth(text: &str, what: &str, n: usize) -> TextRange {
    let (at, _) = text.match_indices(what).nth(n).expect("the text holds the occurrence");
    TextRange { start: at as u32, end: (at + what.len()) as u32 }
}

fn at(text: &str, what: &str, n: usize) -> u32 {
    nth(text, what, n).start
}

/// The highlights for a cursor at `offset` in the one file `text`.
fn on(text: &str, offset: u32) -> Option<Vec<HighlightedRange>> {
    let (before, after) = text.split_at(offset as usize);
    let fixture = ChangeFixture::parse(&format!("{}$0{}", before, after));
    let mut db = RootDatabase::default();
    fixture.change.apply(&mut db);
    let (file, cursor) = fixture.file_position.unwrap();
    assert_eq!(db.file_text(file).as_str(), text);
    assert_eq!(u32::from(cursor.expect_offset()), offset);
    let sema = Semantics::new(&db);
    related(&sema, file, cursor.expect_offset())
}

#[test]
fn exit_points_on_one_line() {
    let text = "fn foo() -> u32 { if true { return 0; } 0?; 0xDEAD_BEEF }";
    let hls = on(text, at(text, "return", 0)).unwrap();
    assert_eq!(
        hls,
        vec![
            plain(nth(text, "return", 0)),
            plain(nth(text, "?", 0)),
            plain(nth(text, "0xDEAD_BEEF", 0)),
        ]
    );
}

#[test]
fn yield_points_on_one_line() {
    let text = "async fn foo(){ foo().await.await; (async { 0.await }).await }";
    let hls = on(text, at(text, "await", 0)).unwrap();
    assert_eq!(
        hls,
        vec![
            plain(nth(text, "async", 0)),
            plain(nth(text, "await", 1)),
            plain(nth(text, "await", 0)),
            plain(nth(text, "await", 3)),
        ]
    );
}

#[test]
fn references_on_one_line() {
    let text = "fn foo(){ let mut bar = 3; bar; }";
    let hls = on(text, at(text, "bar", 1) + 1).unwrap();
    assert_eq!(
        hls,
        vec![
            HighlightedRange { range: nth(text, "bar", 0), access: Some(ReferenceAccess::Write) },
            HighlightedRange { range: nth(text, "bar", 1), access: Some(ReferenceAccess::Read) },
        ]
    );
}

#[test]
fn nothing_on_a_token_without_meaning() {
    let text = "fn foo(){ let mut bar = 3; bar; }";
    // in the blank after `fn foo(){`, and on the `=`: nothing resolves
    assert_eq!(on(text, at(text, "{", 0) + 1), None);
    assert_eq!(on(text, at(text, "=", 0)), None);
}

#[test]
fn a_binding_that_is_not_mutable_is_not_written() {
    let text = "fn foo(){ let bar = 3; let mut baz; baz = bar; }";
    let hls = on(text, at(text, "bar", 0)).unwrap();
    assert_eq!(
        hls,
        vec![
            HighlightedRange { range: nth(text, "bar", 0), access: None },
            HighlightedRange { range: nth(text, "bar", 1), access: Some(ReferenceAccess::Read) },
        ]
    );
    // a mutable binding without an initializer is not written where it is declared
    let hls = on(text, at(text, "baz", 0)).unwrap();
    assert_eq!(
        hls,
        vec![
            HighlightedRange { range: nth(text, "baz", 0), access: None },
            HighlightedRange { range: nth(text, "baz", 1), access: Some(ReferenceAccess::Write) },
        ]
    );
}

#[test]
fn the_same_request_gives_the_same_highlights() {
    let text = "fn foo() -> u32 { if true { return 0; } 0?; 0xDEAD_BEEF }";
    let first = on(text, at(text, "?", 0));
    let second = on(text, at(text, "?", 0));
    assert!(first.is_some());
    assert_eq!(first, second);
    let tree = tree_of(text);
    let position = FilePosition { file_id: 0, offset: at(text, "?", 0) };
    assert_eq!(highlight_related(&tree, position, &None), first);
    assert_eq!(highlight_related(&tree, position, &None), first);
}

#[test]
fn a_closure_keeps_its_exit_points() {
    let text = "fn foo() -> u32 { let c = || { return 1; }; c()?; 2 }";
    let outer = on(text, at(text, "?", 0)).unwrap();
    assert_eq!(outer, vec![plain(nth(text, "?", 0)), plain(nth(text, "2", 1))]);
    let inner = on(text, at(text, "return", 0)).unwrap();
    assert_eq!(inner, vec![plain(nth(text, "return", 0))]);
}

#[test]
fn a_closure_without_a_block_exits_with_its_body() {
    let text = "fn foo() { let c = |x: u32| bar(x)?; }";
    let hls = on(text, at(text, "?", 0)).unwrap();
    assert_eq!(hls, vec![plain(nth(text, "?", 0)), plain(nth(text, "bar(x)?", 0))]);
}

#[test]
fn async_and_try_blocks_keep_their_exit_points() {
    let text = "fn foo() -> u32 { let a = async { return 1; }; let b = try { 2? }; 3 }";
    let outer = on(text, at(text, "->", 0)).unwrap();
    assert_eq!(outer, vec![plain(nth(text, "3", 1))]);
    let in_async = on(text, at(text, "return", 0)).unwrap();
    assert_eq!(in_async, vec![plain(nth(text, "return", 0))]);
    let in_try = on(text, at(text, "?", 0)).unwrap();
    assert_eq!(in_try, vec![plain(nth(text, "?", 0)), plain(nth(text, "2?", 0))]);
}

#[test]
fn an_unsafe_block_is_no_scope() {
    let text = "fn foo() -> u32 { unsafe { bar()?; } 3 }";
    let hls = on(text, at(text, "?", 0)).unwrap();
    assert_eq!(hls, vec![plain(nth(text, "?", 0)), plain(nth(text, "3", 1))]);
}

#[test]
fn an_item_keeps_its_exit_points() {
    let text = "fn foo() -> u32 { fn bar() -> u32 { return 1; } struct S; bar()?; 2 }";
    let outer = on(text, at(text, "?", 0)).unwrap();
    assert_eq!(outer, vec![plain(nth(text, "?", 0)), plain(nth(text, "2", 2))]);
    let inner = on(text, at(text, "return", 0)).unwrap();
    assert_eq!(inner, vec![plain(nth(text, "return", 0))]);
}

#[test]
fn a_call_that_does_not_come_back_is_an_exit_point() {
    let text = "fn stop() -> ! { loop {} }\nfn go() -> u32 { 1 }\n\
                fn foo(c: bool) -> u32 { let x = if c { go() } else { stop() }; x }";
    let hls = on(text, at(text, "->", 2)).unwrap();
    assert_eq!(hls, vec![plain(nth(text, "stop()", 1)), plain(nth(text, "x", 1))]);
}

#[test]
fn a_call_among_the_arguments_of_another_is_an_exit_point() {
    let text = "fn stop() -> ! { loop {} }\nfn go(x: u32) -> u32 { x }\n\
                fn foo() -> u32 { go(stop()) }";
    let hls = on(text, at(text, "->", 2)).unwrap();
    assert_eq!(hls, vec![plain(nth(text, "stop()", 1)), plain(nth(text, "go(stop())", 0))]);
}

#[test]
fn exit_points_are_found_in_arguments_arms_and_conditions() {
    let text = "fn foo() -> u32 { bar(return 1); 2 }";
    let hls = on(text, at(text, "->", 0)).unwrap();
    assert_eq!(hls, vec![plain(nth(text, "return", 0)), plain(nth(text, "2", 1))]);

    let text = "fn foo(x: u32) -> u32 { match x { 0 => return 1, _ => bar()? } }";
    let hls = on(text, at(text, "->", 0)).unwrap();
    assert_eq!(
        hls,
        vec![
            plain(nth(text, "return", 0)),
            plain(nth(text, "?", 0)),
            plain(nth(text, "match x { 0 => return 1, _ => bar()? }", 0)),
        ]
    );

    let text = "fn foo() -> u32 { if bar()? { 1 } else { 2 } }";
    let hls = on(text, at(text, "->", 0)).unwrap();
    assert_eq!(
        hls,
        vec![plain(nth(text, "?", 0)), plain(nth(text, "if bar()? { 1 } else { 2 }", 0))]
    );
}

#[test]
fn yield_points_are_found_in_arguments() {
    let text = "async fn foo() { bar(baz().await, || qux().await); }";
    let hls = on(text, at(text, "async", 0)).unwrap();
    assert_eq!(hls, vec![plain(nth(text, "async", 0)), plain(nth(text, "await", 0))]);
}

#[test]
fn the_question_mark_goes_before_await() {
    let text = "async fn foo() -> u32 { bar().await?; 1 }";
    // the cursor stands between `await` and `?`
    let hls = on(text, at(text, "?", 0)).unwrap();
    assert_eq!(hls, vec![plain(nth(text, "?", 0)), plain(nth(text, "1", 0))]);
    // and here it touches `await` alone
    let hls = on(text, at(text, "await", 0) + 2).unwrap();
    assert_eq!(hls, vec![plain(nth(text, "async", 0)), plain(nth(text, "await", 0))]);
}

#[test]
fn a_function_without_a_body_has_no_exit_points() {
    let text = "trait T { fn foo() -> u32; }";
    assert_eq!(on(text, at(text, "->", 0)), None);
}

#[test]
fn nothing_exits_outside_of_a_scope() {
    let text = "const X: u32 = bar()?;";
    assert_eq!(on(text, at(text, "?", 0)), None);
}

#[test]
fn a_scope_that_is_not_async_has_no_yield_points() {
    let text = "fn foo() { bar().await; }";
    assert_eq!(on(text, at(text, "await", 0)), None);
    let text = "async fn foo() { let c = || bar().await; }";
    assert_eq!(on(text, at(text, "await", 0)), None);
}

#[test]
fn an_async_function_without_a_body_has_no_yield_points() {
    let text = "trait T { async fn foo(); }";
    assert_eq!(on(text, at(text, "async", 0)), None);
}

#[test]
fn a_try_block_is_looked_through_for_yield_points() {
    let text = "async fn foo() { let x = try { bar().await }; baz().await; }";
    // the scope of the first `await` is the function; its walk stops at the
    // `try` block
    let hls = on(text, at(text, "await", 0)).unwrap();
    assert_eq!(hls, vec![plain(nth(text, "async", 0)), plain(nth(text, "await", 1))]);
}

#[test]
fn usages_in_other_files_are_left_out() {
    let text = "fn foo() { foo(); }";
    let tree = tree_of(text);
    let declaration = Declaration { file_id: 7, focus_range: Some(nth(text, "foo", 0)) };
    let here = FileReference { file_id: 3, range: nth(text, "foo", 1), access: None };
    let there = FileReference { file_id: 7, range: TextRange { start: 40, end: 43 }, access: None };
    let definition = Some(Definition {
        kind: EntityKind::Other,
        declaration: Some(declaration),
        usages: vec![there, here],
    });
    let position = FilePosition { file_id: 3, offset: at(text, "foo", 1) };
    let hls = highlight_related(&tree, position, &definition).unwrap();
    assert_eq!(hls, vec![plain(nth(text, "foo", 1))]);
}

#[test]
fn an_offset_behind_the_text_is_on_no_token() {
    let text = "fn foo() {}";
    let position = FilePosition { file_id: 0, offset: text.len() as u32 + 1 };
    assert_eq!(highlight_related(&tree_of(text), position, &None), None);
    let position = FilePosition { file_id: 0, offset: 0 };
    assert_eq!(highlight_related(&tree_of(""), position, &None), None);
}
