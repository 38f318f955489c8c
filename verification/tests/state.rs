use proc_macro2::{Delimiter, TokenStream, TokenTree};
use retained::decl::strip_raw;
use retained::error::ErrorKind;
use retained::state::{FieldKind, State, StateArg, StateDecl, StateField, StateProvided};
use retained::tokens::Name;

fn stream(text: &str) -> TokenStream {
    text.parse().unwrap()
}

/// The token trees of a stream, one string for each, groups unfolded; the
/// spacing of punctuation is left aside.
fn flat(tokens: &TokenStream) -> Vec<String> {
    let mut out = Vec::new();
    for tree in tokens.clone() {
        match tree {
            TokenTree::Group(group) => {
                let (open, close) = match group.delimiter() {
                    Delimiter::Parenthesis => ("(", ")"),
                    Delimiter::Brace => ("{", "}"),
                    Delimiter::Bracket => ("[", "]"),
                    Delimiter::None => ("<<", ">>"),
                };
                out.push(open.to_string());
                out.extend(flat(&group.stream()));
                out.push(close.to_string());
            }
            other => out.push(other.to_string()),
        }
    }
    out
}

fn same(tokens: &TokenStream, expected: &str) {
    assert_eq!(flat(tokens), flat(&stream(expected)));
}

fn parsed(text: &str) -> StateDecl {
    match StateDecl::parse(&stream(text)) {
        Ok(decl) => decl,
        Err(error) => panic!("refused: {}", error.kind.message()),
    }
}

fn refused(text: &str) -> (ErrorKind, TokenStream) {
    match StateDecl::parse(&stream(text)) {
        Ok(_) => panic!("accepted"),
        Err(error) => (error.kind, error.anchor),
    }
}

fn field(kind: FieldKind, ty: &str, init: &str) -> StateField {
    StateField { kind, ty: stream(ty), init: stream(init) }
}

#[test]
fn bare_name_is_a_declaration() {
    let decl = parsed("State");
    assert_eq!(decl.name.as_str(), "State");
    assert!(decl.impl_generics.is_empty());
    assert!(decl.type_generics.is_empty());
    assert!(decl.where_clause.is_empty());
    assert!(decl.constructor.is_empty());
}

#[test]
fn generics_are_split_in_two_forms() {
    let decl = parsed("State<'a, T: Debug + 'a, const N: usize>");
    assert_eq!(decl.name.as_str(), "State");
    same(&decl.impl_generics, "<'a, T: Debug + 'a, const N: usize>");
    same(&decl.type_generics, "<'a, T, N>");
    assert!(decl.where_clause.is_empty());
    assert!(decl.constructor.is_empty());
}

#[test]
fn arrows_and_nested_brackets_do_not_close_the_generics() {
    let decl = parsed("State<F: Fn(u8) -> Vec<Vec<u8>>, I: Iterator<Item = u8>>(f: F)");
    same(&decl.impl_generics, "<F: Fn(u8) -> Vec<Vec<u8>>, I: Iterator<Item = u8>>");
    same(&decl.type_generics, "<F, I>");
    same(&decl.constructor, "f: F");
}

#[test]
fn constructor_parameters_and_where_clause_are_read() {
    let decl = parsed("State<T>(a: i32, b: String) where T: Clone + Default, Vec<T>: Send");
    assert_eq!(decl.name.as_str(), "State");
    same(&decl.impl_generics, "<T>");
    same(&decl.type_generics, "<T>");
    same(&decl.constructor, "a: i32, b: String");
    same(&decl.where_clause, "where T: Clone + Default, Vec<T>: Send");
    let decl = parsed("State() where u8: Copy");
    assert!(decl.constructor.is_empty());
    same(&decl.where_clause, "where u8: Copy");
    let decl = parsed("State(a: u8,)");
    same(&decl.constructor, "a: u8,");
}

#[test]
fn missing_name_is_refused() {
    let (kind, _) = refused("");
    assert_eq!(kind, ErrorKind::MissingName);
    assert!(kind.syntax());
    let (kind, anchor) = refused("<T> State");
    assert_eq!(kind, ErrorKind::MissingName);
    same(&anchor, "<T> State");
    assert_eq!(refused("(a: u8)").0, ErrorKind::MissingName);
    assert_eq!(refused("\"State\"").0, ErrorKind::MissingName);
}

#[test]
fn keyword_is_no_name() {
    let (kind, anchor) = refused("struct<T>");
    assert_eq!(kind, ErrorKind::InvalidName);
    same(&anchor, "struct");
}

#[test]
fn names_outside_ascii_are_read() {
    let decl = parsed("Größe<T>");
    assert_eq!(decl.name.as_str(), "Größe");
    assert_eq!(decl.name.hidden().as_str(), "__Größe");
    let state = State::new(stream("pub"), parsed("Zähler"));
    let emitted = state.to_tokens();
    assert!(flat(&emitted).join(" ").contains("struct __Zähler ( ) ;"));
    assert!(syn::parse2::<syn::File>(emitted).is_ok());
}

#[test]
fn raw_name_is_kept_as_written() {
    let decl = parsed("r#type<T>");
    assert_eq!(decl.name.as_str(), "type");
    same(&decl.written, "r#type");
    let mut state = State::new(stream("pub"), decl);
    state.push_field(field(FieldKind::Eager, "T", "make()"));
    let emitted = state.to_tokens();
    let text = flat(&emitted).join(" ");
    assert!(text.contains(&flat(&stream("struct __type<T>(T,);")).join(" ")));
    assert!(text.contains(&flat(&stream("pub struct r#type<T>(__type<T>,);")).join(" ")));
    assert!(text.contains(&flat(&stream("::core::stringify!(r#type)")).join(" ")));
    assert!(syn::parse2::<syn::File>(emitted).is_ok());
    let arg = StateArg { name: Name::new("__inner").unwrap(), decl: &state.decl };
    same(&arg.to_tokens(), "r#type(__inner): &mut r#type<T>");
}

#[test]
fn mark_of_a_raw_identifier_is_taken_off() {
    assert_eq!(strip_raw("r#type"), "type");
    assert_eq!(strip_raw("type"), "type");
    assert_eq!(strip_raw("r#"), "");
    assert_eq!(strip_raw("r"), "r");
    assert_eq!(strip_raw(""), "");
    assert_eq!(strip_raw("rx#y"), "rx#y");
}

#[test]
fn unclosed_generics_are_refused() {
    let (kind, anchor) = refused("State<T");
    assert_eq!(kind, ErrorKind::UnclosedGenerics);
    same(&anchor, "State<T");
    assert_eq!(refused("State<F: Fn() -> u8").0, ErrorKind::UnclosedGenerics);
    assert_eq!(refused("State<T: Iterator<Item = u8>").0, ErrorKind::UnclosedGenerics);
    assert_eq!(refused("State<").0, ErrorKind::UnclosedGenerics);
}

#[test]
fn malformed_generics_are_refused() {
    let (kind, anchor) = refused("State<T U>");
    assert_eq!(kind, ErrorKind::InvalidGenerics);
    same(&anchor, "<T U>");
    assert_eq!(refused("State<1>").0, ErrorKind::InvalidGenerics);
}

#[test]
fn malformed_parameters_are_refused() {
    let (kind, anchor) = refused("State(a, b)");
    assert_eq!(kind, ErrorKind::InvalidParameters);
    same(&anchor, "a, b");
    assert_eq!(refused("State<T>(a: )").0, ErrorKind::InvalidParameters);
    assert_eq!(refused("State(a: u8; b: u8)").0, ErrorKind::InvalidParameters);
}

#[test]
fn trailing_tokens_are_refused() {
    let (kind, anchor) = refused("State<T> extra");
    assert_eq!(kind, ErrorKind::UnexpectedToken);
    same(&anchor, "extra");
    assert_eq!(refused("State(a: u8)(b: u8)").0, ErrorKind::UnexpectedToken);
    assert_eq!(refused("State State2").0, ErrorKind::UnexpectedToken);
    assert_eq!(refused("State where T: Clone (a: u8)").0, ErrorKind::InvalidWhere);
}

#[test]
fn malformed_where_clause_is_refused() {
    let (kind, anchor) = refused("State<T> where T Clone");
    assert_eq!(kind, ErrorKind::InvalidWhere);
    same(&anchor, "where T Clone");
}

#[test]
fn record_without_caller_values_has_a_default_constructor() {
    let mut state = State::new(stream("pub"), parsed("S"));
    assert!(state.constructs_alone());
    let index = state.push_field(field(
        FieldKind::Composite(1),
        "::core::option::Option<(i32, ())>",
        "::core::option::Option::None",
    ));
    assert_eq!(index, 0);
    let emitted = state.to_tokens();
    same(
        &emitted,
        "struct __S(::core::option::Option<(i32, ())>,); \
         #[repr(transparent)] #[non_exhaustive] pub struct S(__S,); \
         const _: () = { \
             impl ::core::fmt::Debug for S { \
                 fn fmt(&self, f: &mut ::core::fmt::Formatter<'_>) -> ::core::fmt::Result { \
                     f.debug_struct(::core::stringify!(S)).finish_non_exhaustive() \
                 } \
             } \
             impl S { \
                 pub fn new() -> Self { Self(__S(::core::option::Option::None,)) } \
             } \
             impl ::core::default::Default for S { \
                 fn default() -> Self { Self::new() } \
             } \
         };",
    );
    assert!(syn::parse2::<syn::File>(emitted).is_ok());
}

#[test]
fn empty_record_is_emitted() {
    let state = State::new(TokenStream::new(), parsed("Nothing"));
    let emitted = state.to_tokens();
    same(
        &emitted,
        "struct __Nothing(); \
         #[repr(transparent)] #[non_exhaustive] struct Nothing(__Nothing,); \
         const _: () = { \
             impl ::core::fmt::Debug for Nothing { \
                 fn fmt(&self, f: &mut ::core::fmt::Formatter<'_>) -> ::core::fmt::Result { \
                     f.debug_struct(::core::stringify!(Nothing)).finish_non_exhaustive() \
                 } \
             } \
             impl Nothing { \
                 pub fn new() -> Self { Self(__Nothing()) } \
             } \
             impl ::core::default::Default for Nothing { \
                 fn default() -> Self { Self::new() } \
             } \
         };",
    );
    assert!(syn::parse2::<syn::File>(emitted).is_ok());
}

#[test]
fn declared_parameters_make_the_constructor() {
    let mut state = State::new(stream("pub(crate)"), parsed("State(a: i32, b: String)"));
    assert!(!state.constructs_alone());
    state.push_field(field(FieldKind::Eager, "i32", "a + 1"));
    state.push_field(field(FieldKind::Eager, "String", "b"));
    let emitted = state.to_tokens();
    same(
        &emitted,
        "struct __State(i32, String,); \
         #[repr(transparent)] #[non_exhaustive] pub(crate) struct State(__State,); \
         const _: () = { \
             impl ::core::fmt::Debug for State { \
                 fn fmt(&self, f: &mut ::core::fmt::Formatter<'_>) -> ::core::fmt::Result { \
                     f.debug_struct(::core::stringify!(State)).finish_non_exhaustive() \
                 } \
             } \
             impl State { \
                 pub fn new(a: i32, b: String,) -> Self { Self(__State(a + 1, b,)) } \
             } \
         };",
    );
    assert!(syn::parse2::<syn::File>(emitted).is_ok());
}

#[test]
fn provided_slots_follow_the_declared_parameters() {
    let mut state = State::new(stream("pub"), parsed("State(seed: u64,)"));
    state.push_field(field(FieldKind::Provided, "i32", "{ a }"));
    state.push_new_arg(StateProvided { name: stream("a"), ty: stream("i32") });
    state.push_field(field(FieldKind::Eager, "u64", "seed * 2"));
    state.push_field(field(FieldKind::Provided, "String", "{ b }"));
    state.push_new_arg(StateProvided { name: stream("b"), ty: stream("String") });
    assert!(!state.constructs_alone());
    let emitted = state.to_tokens();
    let text = flat(&emitted).join(" ");
    assert!(text.contains(&flat(&stream("pub fn new(seed: u64, a: i32, b: String,) -> Self")).join(" ")));
    assert!(text.contains(&flat(&stream("Self(__State({ a }, seed * 2, { b },))")).join(" ")));
    assert!(text.contains(&flat(&stream("struct __State(i32, u64, String,);")).join(" ")));
    assert!(!text.contains("Default"));
    assert!(syn::parse2::<syn::File>(emitted).is_ok());
}

#[test]
fn provided_slots_alone_make_the_constructor() {
    let mut state = State::new(stream("pub"), parsed("State"));
    state.push_field(field(FieldKind::Provided, "i32", "{ a }"));
    state.push_new_arg(StateProvided { name: stream("a"), ty: stream("i32") });
    state.push_field(field(FieldKind::Provided, "String", "{ b }"));
    state.push_new_arg(StateProvided { name: stream("b"), ty: stream("String") });
    assert!(!state.constructs_alone());
    let emitted = state.to_tokens();
    let text = flat(&emitted).join(" ");
    assert!(text.contains(&flat(&stream("pub fn new(a: i32, b: String,) -> Self")).join(" ")));
    assert!(!text.contains("Default"));
    assert!(syn::parse2::<syn::File>(emitted).is_ok());
}

#[test]
fn generic_record_is_emitted_with_both_forms() {
    let mut state = State::new(stream("pub"), parsed("State<T: Debug> where T: Clone"));
    state.push_field(field(
        FieldKind::Composite(1),
        "::core::option::Option<(T, ())>",
        "::core::option::Option::None",
    ));
    let emitted = state.to_tokens();
    same(
        &emitted,
        "struct __State<T>(::core::option::Option<(T, ())>,) where T: Clone; \
         #[repr(transparent)] #[non_exhaustive] pub struct State<T>(__State<T>,) where T: Clone; \
         const _: () = { \
             impl<T: Debug> ::core::fmt::Debug for State<T> where T: Clone { \
                 fn fmt(&self, f: &mut ::core::fmt::Formatter<'_>) -> ::core::fmt::Result { \
                     f.debug_struct(::core::stringify!(State)).finish_non_exhaustive() \
                 } \
             } \
             impl<T: Debug> State<T> where T: Clone { \
                 pub fn new() -> Self { Self(__State(::core::option::Option::None,)) } \
             } \
             impl<T: Debug> ::core::default::Default for State<T> where T: Clone { \
                 fn default() -> Self { Self::new() } \
             } \
         };",
    );
    assert!(syn::parse2::<syn::File>(emitted).is_ok());
}

#[test]
fn state_parameter_binds_the_inner_struct() {
    let decl = parsed("State<T: Debug>");
    let arg = StateArg { name: Name::new("__inner").unwrap(), decl: &decl };
    same(&arg.to_tokens(), "State(__inner): &mut State<T>");
    let decl = parsed("S");
    let arg = StateArg { name: Name::new("__inner").unwrap(), decl: &decl };
    same(&arg.to_tokens(), "S(__inner): &mut S");
    assert!(syn::parse2::<syn::FnArg>(arg.to_tokens()).is_ok());
}

#[test]
fn declaration_is_put_together_from_the_answers() {
    let written = stream("State<T>(a: u8) where T: Clone");
    let forms = || Some((stream("<T: Clone>"), stream("<T>")));
    let decl = StateDecl::assemble(&written, true, forms(), true, true).ok().unwrap();
    assert_eq!(decl.name.as_str(), "State");
    same(&decl.impl_generics, "<T: Clone>");
    same(&decl.type_generics, "<T>");
    same(&decl.constructor, "a: u8");
    same(&decl.where_clause, "where T: Clone");
    let kind = |name, generics, parameters, clause| {
        StateDecl::assemble(&written, name, generics, parameters, clause).err().unwrap().kind
    };
    assert_eq!(kind(false, forms(), true, true), ErrorKind::InvalidName);
    assert_eq!(kind(true, None, true, true), ErrorKind::InvalidGenerics);
    assert_eq!(kind(true, forms(), false, true), ErrorKind::InvalidParameters);
    assert_eq!(kind(true, forms(), true, false), ErrorKind::InvalidWhere);
    assert_eq!(kind(false, None, false, false), ErrorKind::InvalidName);
    assert_eq!(kind(true, None, false, false), ErrorKind::InvalidGenerics);
}

#[test]
fn parts_that_are_not_there_are_not_asked_about() {
    let bare = StateDecl::assemble(&stream("State"), true, None, false, false).ok().unwrap();
    assert_eq!(bare.name.as_str(), "State");
    assert!(bare.impl_generics.is_empty());
    assert!(bare.type_generics.is_empty());
    assert!(bare.constructor.is_empty());
    assert!(bare.where_clause.is_empty());
    let empty_list = StateDecl::assemble(&stream("State()"), true, None, false, false);
    assert!(empty_list.is_ok());
    let refused = |text: &str| {
        StateDecl::assemble(&stream(text), true, None, true, true).err().unwrap().kind
    };
    assert_eq!(refused(""), ErrorKind::MissingName);
    assert_eq!(refused("(a: u8)"), ErrorKind::MissingName);
    assert_eq!(refused("State<T"), ErrorKind::UnclosedGenerics);
    assert_eq!(refused("State extra"), ErrorKind::UnexpectedToken);
    assert!(StateDecl::assemble(&stream("r#type"), true, None, true, true).is_ok());
}
