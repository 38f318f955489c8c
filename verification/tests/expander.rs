use proc_macro2::{Delimiter, TokenStream, TokenTree};
use retained::error::ErrorKind;
use retained::retained_let::default::DefaultLetStmt;
use retained::retained_let::inplace::InplaceLetStmt;
use retained::retained_let::provided::{LocalNameVisitor, ProvidedLetStmt};
use retained::retained_let::{
    deeper, extract_init, Init, LocalTyVisitor, RetainedLetAttr, RetainedLetExpander,
    RetainedLetStmt, Rewrite,
};
use retained::state::{FieldKind, State, StateDecl};
use retained::syntax::{Attribute, Local, LocalInit};
use retained::tokens::Name;

fn stream(text: &str) -> TokenStream {
    text.parse().unwrap()
}

/// The token trees of a stream, one string for each, groups unfolded; the
/// spacing of punctuation is left aside.
fn flat(tokens: &TokenStream) -> Vec<String> {
    let mut out = Vec::new();
    for tree in tokens.clone() {
        match tree {
            TokenTree::Group(group) => {
                let (open, close) = match group.delimiter() {
                    Delimiter::Parenthesis => ("(", ")"),
                    Delimiter::Brace => ("{", "}"),
                    Delimiter::Bracket => ("[", "]"),
                    Delimiter::None => ("<<", ">>"),
                };
                out.push(open.to_string());
                out.extend(flat(&group.stream()));
                out.push(close.to_string());
            }
            other => out.push(other.to_string()),
        }
    }
    out
}

fn same(tokens: &TokenStream, expected: &str) {
    assert_eq!(flat(tokens), flat(&stream(expected)));
}

fn decl(name: &str) -> StateDecl {
    StateDecl {
        name: Name::new(name).unwrap(),
        written: stream(name),
        impl_generics: TokenStream::new(),
        type_generics: TokenStream::new(),
        where_clause: TokenStream::new(),
        constructor: TokenStream::new(),
    }
}

fn new_state() -> State {
    State::new(stream("pub"), decl("S"))
}

fn root() -> RetainedLetExpander {
    RetainedLetExpander::new(Name::new("__inner").unwrap(), 0)
}

fn tagged(list: Option<&str>) -> Attribute {
    Attribute { outer: true, path: Some("retained".to_string()), list: list.map(stream) }
}

fn declaration(attrs: Vec<Attribute>, name: &str, ty: Option<&str>, init: Option<&str>) -> Local {
    let pat = match ty {
        Some(ty) => format!("ref mut {name}: {ty}"),
        None => format!("ref mut {name}"),
    };
    let tokens = match init {
        Some(init) => format!("let {pat} = {init};"),
        None => format!("let {pat};"),
    };
    Local {
        attrs,
        pat: stream(&pat),
        names: vec![stream(name)],
        ty: ty.map(stream),
        init: init.map(|init| LocalInit { expr: stream(init), diverge: None }),
        tokens: stream(&tokens),
    }
}

/// What replaces a statement of a block, with its initializer as written.
fn step(expander: &mut RetainedLetExpander, local: &Local, state: &mut State) -> Option<TokenStream> {
    let init = local.init.as_ref().map(|init| init.expr.clone()).unwrap_or_default();
    expander.rewrite(local, state).tokens(init)
}

fn counter() -> Local {
    declaration(vec![tagged(None)], "counter", Some("i32"), Some("0"))
}

fn kind_of<T>(result: Result<T, retained::error::Error>) -> ErrorKind {
    match result {
        Ok(_) => panic!("the declaration was accepted"),
        Err(error) => error.kind,
    }
}

#[test]
fn selectors_name_the_three_modes() {
    assert_eq!(Init::from_selector(&"inplace".to_string()), Some(Init::Inplace));
    assert_eq!(Init::from_selector(&"default".to_string()), Some(Init::Default));
    assert_eq!(Init::from_selector(&"provided".to_string()), Some(Init::Provided));
    assert_eq!(Init::from_selector(&"item".to_string()), Some(Init::Provided));
    assert_eq!(Init::from_selector(&"lazy".to_string()), None);
    assert_eq!(Init::from_selector(&"".to_string()), None);
}

#[test]
fn mode_is_parsed_from_the_arguments() {
    assert_eq!(Init::parse(&stream("inplace")).ok(), Some(Init::Inplace));
    assert_eq!(Init::parse(&stream("default")).ok(), Some(Init::Default));
    assert_eq!(Init::parse(&stream("provided")).ok(), Some(Init::Provided));
}

#[test]
fn unknown_selector_is_a_syntax_error_at_the_selector() {
    let error = Init::parse(&stream("sometimes")).err().unwrap();
    assert_eq!(error.kind, ErrorKind::UnknownMode);
    assert!(error.kind.syntax());
    same(&error.anchor, "sometimes");
    assert_eq!(kind_of(Init::parse(&stream(""))), ErrorKind::UnknownMode);
    assert_eq!(kind_of(Init::parse(&stream("\"default\""))), ErrorKind::UnknownMode);
    assert_eq!(kind_of(Init::parse(&stream("(default)"))), ErrorKind::UnknownMode);
    assert_eq!(kind_of(Init::parse(&stream("= default"))), ErrorKind::UnknownMode);
}

#[test]
fn tokens_behind_the_selector_are_refused() {
    let error = Init::parse(&stream("default, inplace")).err().unwrap();
    assert_eq!(error.kind, ErrorKind::TrailingTokens);
    assert!(error.kind.syntax());
    same(&error.anchor, ", inplace");
    let error = Init::parse(&stream("sometimes default")).err().unwrap();
    assert_eq!(error.kind, ErrorKind::UnknownMode);
    same(&error.anchor, "sometimes");
    let error = Init::parse(&stream("(default) inplace")).err().unwrap();
    assert_eq!(error.kind, ErrorKind::UnknownMode);
    same(&error.anchor, "(default)");
    let error = Init::parse(&stream("")).err().unwrap();
    assert!(error.anchor.is_empty());
}

#[test]
fn attribute_without_selector_is_in_place() {
    let attr = RetainedLetAttr::try_from_attr(&tagged(None)).unwrap().ok().unwrap();
    assert_eq!(attr.init, Init::Inplace);
    let attr = RetainedLetAttr::try_from_attr(&tagged(Some("default"))).unwrap().ok().unwrap();
    assert_eq!(attr.init, Init::Default);
}

#[test]
fn other_attributes_are_passed_over() {
    let inner = Attribute { outer: false, path: Some("retained".to_string()), list: None };
    assert!(RetainedLetAttr::try_from_attr(&inner).is_none());
    let other = Attribute { outer: true, path: Some("allow".to_string()), list: Some(stream("unused")) };
    assert!(RetainedLetAttr::try_from_attr(&other).is_none());
    let qualified = Attribute { outer: true, path: None, list: None };
    assert!(RetainedLetAttr::try_from_attr(&qualified).is_none());
}

#[test]
fn attribute_with_unknown_selector_is_an_error() {
    let result = RetainedLetAttr::try_from_attr(&tagged(Some("eager"))).unwrap();
    assert_eq!(kind_of(result), ErrorKind::UnknownMode);
}

#[test]
fn untagged_statement_is_left_alone() {
    let mut state = new_state();
    let mut expander = root();
    let plain = declaration(vec![], "x", Some("u8"), Some("1"));
    assert!(RetainedLetStmt::try_from_local(&plain).is_none());
    assert!(step(&mut expander, &plain, &mut state).is_none());
    let allowed = declaration(
        vec![Attribute { outer: true, path: Some("allow".to_string()), list: Some(stream("unused")) }],
        "x",
        Some("u8"),
        Some("1"),
    );
    assert!(step(&mut expander, &allowed, &mut state).is_none());
    assert!(state.fields.is_empty());
    assert!(state.new_args.is_empty());
    assert!(expander.finish(&mut state).is_none());
    assert!(state.fields.is_empty());
}

#[test]
fn last_annotation_decides() {
    let both = declaration(vec![tagged(Some("default")), tagged(None)], "x", Some("u8"), Some("1"));
    assert!(matches!(
        RetainedLetStmt::try_from_local(&both),
        Some(Ok(RetainedLetStmt::Inplace(_)))
    ));
    let both = declaration(vec![tagged(None), tagged(Some("default"))], "x", Some("u8"), Some("1"));
    assert!(matches!(
        RetainedLetStmt::try_from_local(&both),
        Some(Ok(RetainedLetStmt::Default(_)))
    ));
    let mixed = declaration(
        vec![
            tagged(Some("default")),
            Attribute { outer: true, path: Some("allow".to_string()), list: Some(stream("unused")) },
        ],
        "x",
        Some("u8"),
        Some("1"),
    );
    assert!(matches!(
        RetainedLetStmt::try_from_local(&mixed),
        Some(Ok(RetainedLetStmt::Default(_)))
    ));
    let broken_last = declaration(vec![tagged(None), tagged(Some("bogus"))], "x", Some("u8"), Some("1"));
    match RetainedLetStmt::try_from_local(&broken_last) {
        Some(Err(error)) => assert_eq!(error.kind, ErrorKind::UnknownMode),
        _ => panic!("the last annotation did not decide"),
    }
    let broken_first = declaration(vec![tagged(Some("bogus")), tagged(None)], "x", Some("u8"), Some("1"));
    assert!(matches!(
        RetainedLetStmt::try_from_local(&broken_first),
        Some(Ok(RetainedLetStmt::Inplace(_)))
    ));
}

#[test]
fn type_and_name_and_initializer_are_found() {
    let local = counter();
    same(&LocalTyVisitor::find(&local).unwrap(), "i32");
    same(&LocalNameVisitor::find(&local).unwrap(), "counter");
    same(&extract_init(&local).ok().unwrap(), "0");
    let bare = declaration(vec![], "x", None, None);
    assert!(LocalTyVisitor::find(&bare).is_none());
    assert_eq!(kind_of(extract_init(&bare)), ErrorKind::MissingInitializer);
    let mut pair = declaration(vec![], "x", Some("(u8, u8)"), None);
    pair.pat = stream("(a, b): (u8, u8)");
    pair.names = vec![stream("a"), stream("b")];
    assert!(LocalNameVisitor::find(&pair).is_none());
    pair.names = vec![];
    assert!(LocalNameVisitor::find(&pair).is_none());
}

#[test]
fn lazy_declaration_needs_type_and_initializer() {
    let untyped = declaration(vec![tagged(None)], "x", None, Some("1"));
    let error = InplaceLetStmt::try_from(&untyped).err().unwrap();
    assert_eq!(error.kind, ErrorKind::MissingType);
    assert!(!error.kind.syntax());
    same(&error.anchor, "let ref mut x = 1;");
    let empty = declaration(vec![tagged(None)], "x", Some("u8"), None);
    let error = InplaceLetStmt::try_from(&empty).err().unwrap();
    assert_eq!(error.kind, ErrorKind::MissingInitializer);
    same(&error.anchor, "let ref mut x: u8;");
    let both = declaration(vec![tagged(None)], "x", None, None);
    assert_eq!(kind_of(InplaceLetStmt::try_from(&both)), ErrorKind::MissingType);
}

#[test]
fn diverging_initializer_is_refused_at_the_else_branch() {
    let mut local = declaration(vec![tagged(None)], "x", Some("u8"), Some("maybe()"));
    local.init = Some(LocalInit { expr: stream("maybe()"), diverge: Some(stream("{ return; }")) });
    let error = InplaceLetStmt::try_from(&local).err().unwrap();
    assert_eq!(error.kind, ErrorKind::Diverges);
    assert!(!error.kind.syntax());
    same(&error.anchor, "{ return; }");
    assert_eq!(kind_of(DefaultLetStmt::try_from(&local)), ErrorKind::Diverges);
}

#[test]
fn eager_declaration_needs_type_and_initializer() {
    let untyped = declaration(vec![tagged(Some("default"))], "x", None, Some("1"));
    assert_eq!(kind_of(DefaultLetStmt::try_from(&untyped)), ErrorKind::MissingType);
    let empty = declaration(vec![tagged(Some("default"))], "x", Some("u8"), None);
    assert_eq!(kind_of(DefaultLetStmt::try_from(&empty)), ErrorKind::MissingInitializer);
    let good = declaration(vec![tagged(Some("default"))], "x", Some("u8"), Some("1 + 2"));
    let stmt = DefaultLetStmt::try_from(&good).ok().unwrap();
    same(&stmt.pat, "ref mut x: u8");
    same(&stmt.ty, "u8");
    same(&stmt.init, "1 + 2");
}

#[test]
fn provided_declaration_needs_type_one_name_and_no_initializer() {
    let untyped = declaration(vec![tagged(Some("provided"))], "x", None, None);
    assert_eq!(kind_of(ProvidedLetStmt::try_from(&untyped)), ErrorKind::MissingType);
    let filled = declaration(vec![tagged(Some("provided"))], "x", Some("u8"), Some("1"));
    let error = ProvidedLetStmt::try_from(&filled).err().unwrap();
    assert_eq!(error.kind, ErrorKind::UnexpectedInitializer);
    assert!(!error.kind.syntax());
    same(&error.anchor, "let ref mut x: u8 = 1;");
    let mut pair = declaration(vec![tagged(Some("provided"))], "x", Some("(u8, u8)"), None);
    pair.names = vec![stream("a"), stream("b")];
    assert_eq!(kind_of(ProvidedLetStmt::try_from(&pair)), ErrorKind::UnnamedBinding);
    pair.names = vec![];
    assert_eq!(kind_of(ProvidedLetStmt::try_from(&pair)), ErrorKind::UnnamedBinding);
    let good = declaration(vec![tagged(Some("provided"))], "x", Some("u8"), None);
    let stmt = ProvidedLetStmt::try_from(&good).ok().unwrap();
    same(&stmt.name, "x");
    same(&stmt.pat, "ref mut x: u8");
    same(&stmt.ty, "u8");
}

#[test]
fn lazy_counter_is_rewritten() {
    let mut state = new_state();
    let mut expander = root();
    let replacement = step(&mut expander, &counter(), &mut state).unwrap();
    same(
        &replacement,
        "let (ref mut __tmp, ref mut __inner0) = { \
            if __inner0.is_none() { \
                *__inner0 = ::core::option::Option::Some(({ 0 }, Default::default())); \
            } \
            __inner0.as_mut().unwrap() \
        }; \
        let ref mut counter: i32 = *__tmp;",
    );
    assert_eq!(state.fields.len(), 1);
    assert_eq!(state.fields[0].kind, FieldKind::Composite(0));
    same(&state.fields[0].ty, "()");
    let binding = expander.finish(&mut state).unwrap();
    same(&binding, "let __inner0 = &mut __inner.0;");
    assert_eq!(state.fields.len(), 1);
    assert_eq!(state.fields[0].kind, FieldKind::Composite(1));
    same(&state.fields[0].ty, "::core::option::Option<(i32, ())>");
    same(&state.fields[0].init, "::core::option::Option::None");
    assert!(state.new_args.is_empty());
}

#[test]
fn lazy_declarations_of_one_block_share_one_chain() {
    let mut state = new_state();
    let mut expander = root();
    let a = declaration(vec![tagged(None)], "a", Some("A"), Some("A::new()"));
    let b = declaration(vec![tagged(Some("inplace"))], "b", Some("Vec<B>"), Some("vec![]"));
    let c = declaration(vec![tagged(None)], "c", Some("(C, C)"), Some("(c(), c())"));
    assert!(step(&mut expander, &a, &mut state).is_some());
    assert!(step(&mut expander, &b, &mut state).is_some());
    assert!(step(&mut expander, &c, &mut state).is_some());
    assert_eq!(state.fields.len(), 1);
    let binding = expander.finish(&mut state).unwrap();
    same(&binding, "let __inner0 = &mut __inner.0;");
    assert_eq!(state.fields.len(), 1);
    assert_eq!(state.fields[0].kind, FieldKind::Composite(3));
    same(
        &state.fields[0].ty,
        "::core::option::Option<(A, ::core::option::Option<(Vec<B>, \
         ::core::option::Option<((C, C), ())>)>)>",
    );
}

#[test]
fn eager_declaration_reads_its_slot() {
    let mut state = new_state();
    let mut expander = root();
    let first = declaration(vec![tagged(Some("default"))], "a", Some("u8"), Some("1 + 2"));
    let second = declaration(vec![tagged(Some("default"))], "b", Some("String"), Some("String::new()"));
    same(&step(&mut expander, &first, &mut state).unwrap(), "let ref mut a: u8 = __inner.0;");
    same(&step(&mut expander, &second, &mut state).unwrap(), "let ref mut b: String = __inner.1;");
    assert_eq!(state.fields.len(), 2);
    assert_eq!(state.fields[0].kind, FieldKind::Eager);
    same(&state.fields[0].ty, "u8");
    same(&state.fields[0].init, "1 + 2");
    assert_eq!(state.fields[1].kind, FieldKind::Eager);
    same(&state.fields[1].ty, "String");
    same(&state.fields[1].init, "String::new()");
    assert!(state.new_args.is_empty());
    assert!(expander.finish(&mut state).is_none());
    assert_eq!(state.fields.len(), 2);
}

#[test]
fn provided_declaration_adds_a_constructor_parameter() {
    let mut state = new_state();
    let mut expander = root();
    let a = declaration(vec![tagged(Some("provided"))], "a", Some("i32"), None);
    let b = declaration(vec![tagged(Some("item"))], "b", Some("String"), None);
    same(&step(&mut expander, &a, &mut state).unwrap(), "let ref mut a: i32 = __inner.0;");
    same(&step(&mut expander, &b, &mut state).unwrap(), "let ref mut b: String = __inner.1;");
    assert_eq!(state.fields.len(), 2);
    assert_eq!(state.fields[0].kind, FieldKind::Provided);
    same(&state.fields[0].ty, "i32");
    same(&state.fields[0].init, "{ a }");
    assert_eq!(state.fields[1].kind, FieldKind::Provided);
    same(&state.fields[1].init, "{ b }");
    assert_eq!(state.new_args.len(), 2);
    same(&state.new_args[0].name, "a");
    same(&state.new_args[0].ty, "i32");
    same(&state.new_args[1].name, "b");
    same(&state.new_args[1].ty, "String");
    same(&state.new_args[1].to_tokens(), "b: String");
}

#[test]
fn refused_declaration_becomes_an_inert_statement() {
    let mut state = new_state();
    let mut expander = root();
    let untyped = declaration(vec![tagged(None)], "x", None, Some("1"));
    same(
        &step(&mut expander, &untyped, &mut state).unwrap(),
        "::core::compile_error! { \"missing type for retained let\" }",
    );
    let bogus = declaration(vec![tagged(Some("bogus"))], "x", Some("u8"), Some("1"));
    same(
        &step(&mut expander, &bogus, &mut state).unwrap(),
        "::core::compile_error! { \"expected `inplace`, `default` or `provided`\" }",
    );
    assert!(state.fields.is_empty());
    let good = declaration(vec![tagged(Some("default"))], "y", Some("u8"), Some("2"));
    same(&step(&mut expander, &good, &mut state).unwrap(), "let ref mut y: u8 = __inner.0;");
    assert!(expander.finish(&mut state).is_none());
    assert_eq!(state.fields.len(), 1);
}

#[test]
fn every_refusal_has_its_message() {
    let anchor = TokenStream::new();
    let kinds = [
        (ErrorKind::UnknownMode, "expected `inplace`, `default` or `provided`"),
        (ErrorKind::TrailingTokens, "unexpected token after the mode of a retained let"),
        (ErrorKind::MissingType, "missing type for retained let"),
        (ErrorKind::MissingInitializer, "missing initializer in retained let"),
        (ErrorKind::Diverges, "retained let cannot diverge"),
        (ErrorKind::UnexpectedInitializer, "provided retained let cannot have initializer"),
        (ErrorKind::UnnamedBinding, "provided retained let must bind a single name"),
        (ErrorKind::MissingName, "expected the name of the state type"),
        (ErrorKind::InvalidName, "expected an identifier for the state type, found a keyword"),
        (ErrorKind::UnsupportedName, "unsupported identifier for the name of the state type"),
        (ErrorKind::UnclosedGenerics, "expected `>` to close the generic parameters"),
        (ErrorKind::InvalidGenerics, "malformed generic parameters for the state type"),
        (ErrorKind::InvalidParameters, "expected a list of `name: type` pairs"),
        (ErrorKind::UnexpectedToken, "unexpected token, expected `where`"),
        (ErrorKind::InvalidWhere, "malformed `where` clause for the state type"),
    ];
    for (kind, message) in kinds {
        assert_eq!(kind.message(), message);
        let error = retained::error::Error::new(kind, &anchor);
        let expected = format!("::core::compile_error! {{ {:?} }}", message);
        same(&error.to_compile_error(), &expected);
    }
}

#[test]
fn nested_blocks_get_their_own_chain_and_name() {
    let mut state = new_state();
    let mut outer = root();
    let a = declaration(vec![tagged(None)], "a", Some("A"), Some("a()"));
    assert!(step(&mut outer, &a, &mut state).is_some());

    let mut branch = RetainedLetExpander::new(Name::new("__inner").unwrap(), deeper(0));
    let b = declaration(vec![tagged(None)], "b", Some("B"), Some("b()"));
    same(
        &step(&mut branch, &b, &mut state).unwrap(),
        "let (ref mut __tmp, ref mut __inner1) = { \
            if __inner1.is_none() { \
                *__inner1 = ::core::option::Option::Some(({ b() }, Default::default())); \
            } \
            __inner1.as_mut().unwrap() \
        }; \
        let ref mut b: B = *__tmp;",
    );
    let innermost = RetainedLetExpander::new(Name::new("__inner").unwrap(), deeper(1));
    assert!(innermost.finish(&mut state).is_none());
    same(&branch.finish(&mut state).unwrap(), "let __inner1 = &mut __inner.1;");

    let empty_branch = RetainedLetExpander::new(Name::new("__inner").unwrap(), deeper(0));
    assert!(empty_branch.finish(&mut state).is_none());
    assert_eq!(state.fields.len(), 2);
    assert_eq!(state.fields[0].kind, FieldKind::Composite(0));

    same(&outer.finish(&mut state).unwrap(), "let __inner0 = &mut __inner.0;");
    assert_eq!(state.fields.len(), 2);
    same(&state.fields[0].ty, "::core::option::Option<(A, ())>");
    same(&state.fields[1].ty, "::core::option::Option<(B, ())>");
}

#[test]
fn slots_stand_in_the_order_of_discovery() {
    let mut state = new_state();
    let mut expander = root();
    let e = declaration(vec![tagged(Some("default"))], "e", Some("E"), Some("e()"));
    let l = declaration(vec![tagged(None)], "l", Some("L"), Some("l()"));
    let p = declaration(vec![tagged(Some("provided"))], "p", Some("P"), None);
    same(&step(&mut expander, &e, &mut state).unwrap(), "let ref mut e: E = __inner.0;");
    assert!(step(&mut expander, &l, &mut state).is_some());
    same(&step(&mut expander, &p, &mut state).unwrap(), "let ref mut p: P = __inner.2;");
    same(&expander.finish(&mut state).unwrap(), "let __inner0 = &mut __inner.1;");
    let kinds: Vec<FieldKind> = state.fields.iter().map(|field| field.kind).collect();
    assert_eq!(kinds, vec![FieldKind::Eager, FieldKind::Composite(1), FieldKind::Provided]);
}

#[test]
fn first_tagged_declaration_gets_the_first_slot() {
    let mut state = new_state();
    let mut expander = root();
    let mut b = declaration(vec![tagged(None)], "b", Some("u8"), Some("1"));
    b.pat = stream("ref b: u8");
    let a = declaration(vec![tagged(Some("default"))], "a", Some("i32"), Some("0"));
    assert!(step(&mut expander, &b, &mut state).is_some());
    same(&step(&mut expander, &a, &mut state).unwrap(), "let ref mut a: i32 = __inner.1;");
    same(&expander.finish(&mut state).unwrap(), "let __inner0 = &mut __inner.0;");
    assert_eq!(state.fields.len(), 2);
    assert_eq!(state.fields[0].kind, FieldKind::Composite(1));
    same(&state.fields[0].ty, "::core::option::Option<(u8, ())>");
    same(&state.fields[0].init, "::core::option::Option::None");
    assert_eq!(state.fields[1].kind, FieldKind::Eager);
    same(&state.fields[1].ty, "i32");
    same(&state.fields[1].init, "0");
}

#[test]
fn block_ended_on_another_record_commits_behind() {
    let mut first = new_state();
    let mut expander = root();
    assert!(step(&mut expander, &counter(), &mut first).is_some());
    let mut second = new_state();
    same(&expander.finish(&mut second).unwrap(), "let __inner0 = &mut __inner.0;");
    assert_eq!(second.fields.len(), 1);
    assert_eq!(second.fields[0].kind, FieldKind::Composite(1));
    assert_eq!(first.fields[0].kind, FieldKind::Composite(0));
}

#[test]
fn identical_input_gives_identical_records() {
    let run = || {
        let mut state = new_state();
        let mut expander = root();
        let mut emitted = Vec::new();
        for local in [
            declaration(vec![tagged(Some("default"))], "e", Some("E"), Some("e()")),
            declaration(vec![tagged(None)], "l", Some("L"), Some("l()")),
            declaration(vec![tagged(Some("provided"))], "p", Some("P"), None),
            declaration(vec![], "u", Some("U"), Some("u()")),
        ] {
            emitted.push(step(&mut expander, &local, &mut state).map(|tokens| tokens.to_string()));
        }
        emitted.push(expander.finish(&mut state).map(|tokens| tokens.to_string()));
        (emitted, state.to_tokens().to_string())
    };
    assert_eq!(run(), run());
}

#[test]
fn depth_stops_counting_at_the_limit() {
    assert_eq!(deeper(0), 1);
    assert_eq!(deeper(41), 42);
    assert_eq!(deeper(usize::MAX - 1), usize::MAX);
    assert_eq!(deeper(usize::MAX), usize::MAX);
}

#[test]
fn lazy_declaration_waits_for_its_initializer() {
    let mut state = new_state();
    let mut expander = root();
    let rewrite = expander.rewrite(&counter(), &mut state);
    match &rewrite {
        Rewrite::Reach { pat, chain } => {
            same(pat, "ref mut counter: i32");
            assert_eq!(chain.as_str(), "__inner0");
        }
        _ => panic!("a lazy declaration is a step along its chain"),
    }
    same(
        &rewrite.tokens(stream("{ rewritten(); 0 }")).unwrap(),
        "let (ref mut __tmp, ref mut __inner0) = { \
            if __inner0.is_none() { \
                *__inner0 = ::core::option::Option::Some(({ { rewritten(); 0 } }, Default::default())); \
            } \
            __inner0.as_mut().unwrap() \
        }; \
        let ref mut counter: i32 = *__tmp;",
    );
    assert!(Rewrite::Keep.tokens(stream("1")).is_none());
    same(&Rewrite::Replace(stream("a; b")).tokens(stream("1")).unwrap(), "a; b");
}

#[test]
fn lowering_writes_the_initializer_as_it_is() {
    let mut state = new_state();
    let mut expander = root();
    let stmt = RetainedLetStmt::try_from_local(&counter()).unwrap().ok().unwrap();
    same(
        &expander.low(stmt, &mut state),
        "let (ref mut __tmp, ref mut __inner0) = { \
            if __inner0.is_none() { \
                *__inner0 = ::core::option::Option::Some(({ 0 }, Default::default())); \
            } \
            __inner0.as_mut().unwrap() \
        }; \
        let ref mut counter: i32 = *__tmp;",
    );
    same(&expander.finish(&mut state).unwrap(), "let __inner0 = &mut __inner.0;");
}
