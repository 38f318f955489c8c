use proc_macro2::TokenStream;
use retained::tokens::{copy, decimal_text, is_identifier, slice, Name};

fn stream(text: &str) -> TokenStream {
    text.parse().unwrap()
}

#[test]
fn copy_keeps_the_tokens() {
    let written = stream("let ref a: Vec<(u8, String)> = vec![(1, \"x\".to_string())];");
    assert_eq!(copy(&written).to_string(), written.to_string());
    assert!(copy(&TokenStream::new()).is_empty());
}

#[test]
fn decimal_text_writes_numbers() {
    assert_eq!(decimal_text(0), "0");
    assert_eq!(decimal_text(7), "7");
    assert_eq!(decimal_text(10), "10");
    assert_eq!(decimal_text(12345), "12345");
    assert_eq!(decimal_text(usize::MAX), usize::MAX.to_string());
}

#[test]
fn identifiers_are_told_apart() {
    assert!(is_identifier("__inner"));
    assert!(is_identifier("_"));
    assert!(is_identifier("State2"));
    assert!(!is_identifier(""));
    assert!(!is_identifier("2State"));
    assert!(!is_identifier("a-b"));
    assert!(!is_identifier("r#type"));
    assert!(is_identifier("Größe"));
    assert!(is_identifier("名前"));
    assert!(is_identifier("_ö9"));
    assert!(!is_identifier("ö b"));
    assert!(!is_identifier("€uro"));
    assert!(!is_identifier("a€"));
    assert!(!is_identifier("٣abc"));
}

#[test]
fn names_are_identifiers() {
    assert!(Name::new("9lives").is_none());
    let name = Name::new("__inner").unwrap();
    assert_eq!(name.as_str(), "__inner");
    assert_eq!(name.numbered(0).as_str(), "__inner0");
    assert_eq!(name.numbered(12).as_str(), "__inner12");
    assert_eq!(name.hidden().as_str(), "____inner");
    assert_eq!(name.duplicate().as_str(), "__inner");
    let mut tokens = TokenStream::new();
    name.push_to(&mut tokens);
    Name::new("State").unwrap().push_to(&mut tokens);
    assert_eq!(tokens.to_string(), stream("__inner State").to_string());
}

#[test]
fn slice_takes_the_tokens_between() {
    let written = stream("a (b c) , d :: e");
    assert_eq!(slice(&written, 0, 7).to_string(), written.to_string());
    assert_eq!(slice(&written, 1, 3).to_string(), stream("(b c) ,").to_string());
    assert_eq!(slice(&written, 3, 4).to_string(), "d");
    assert!(slice(&written, 2, 2).is_empty());
    assert!(slice(&written, 7, 7).is_empty());
    assert_eq!(slice(&written, 4, 7).to_string(), stream(":: e").to_string());
}
