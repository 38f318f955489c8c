//! Declarations whose initializer runs when control first reaches them.

use crate::error::{Error, ErrorKind};
use crate::retained_let::{anchor_of, extract_init, init_of, LocalTyVisitor};
use crate::syntax::{Local, LocalView};
use crate::tokens::{
    alone, copy, empty, joint, lemma_words, push_colons, push_group, push_ident, push_punct,
    push_stream, token_seq, word, Delimiter, Name, Token,
};
use proc_macro2::TokenStream;
use vstd::prelude::*;

verus! {

/// A declaration in lazy mode.
pub struct InplaceLetStmt {
    pub pat: TokenStream,
    pub ty: TokenStream,
    pub init: TokenStream,
}

/// Such a declaration as a mathematical value.
pub ghost struct InplaceLetView {
    pub pat: Seq<Token>,
    pub ty: Seq<Token>,
    pub init: Seq<Token>,
}

impl View for InplaceLetStmt {
    type V = InplaceLetView;

    open spec fn view(&self) -> InplaceLetView {
        InplaceLetView {
            pat: token_seq(self.pat),
            ty: token_seq(self.ty),
            init: token_seq(self.init),
        }
    }
}

/// What lazy mode makes of a declaration: it needs a type, and an initializer
/// that cannot leave the function.
pub open spec fn inplace_of(local: LocalView) -> Result<InplaceLetView, ErrorKind> {
    if local.ty is None {
        Err(ErrorKind::MissingType)
    } else {
        match init_of(local) {
            Ok(init) => Ok(InplaceLetView { pat: local.pat, ty: local.ty->0, init }),
            Err(kind) => Err(kind),
        }
    }
}

/// The types of a block's lazy declarations, as mathematical values.
pub open spec fn streams(stack: Seq<TokenStream>) -> Seq<Seq<Token>> {
    stack.map_values(|stream: TokenStream| token_seq(stream))
}

/// The value that an empty link of a block's chain is filled with: the
/// initializer in a block of its own, and an empty rest:
/// `{ <init> }, Default::default()`.
pub open spec fn lazy_value(init: Seq<Token>) -> Seq<Token> {
    seq![
        Token::Group(Delimiter::Brace, init),
        alone(','),
        word("Default"),
        joint(':'),
        alone(':'),
        word("default"),
        Token::Group(Delimiter::Parenthesis, seq![]),
    ]
}

/// The assignment that fills the link:
/// `*<chain> = ::core::option::Option::Some((<value>));`.
pub open spec fn lazy_fill(block_state: Seq<char>, init: Seq<Token>) -> Seq<Token> {
    seq![
        alone('*'),
        Token::Ident(block_state),
        alone('='),
        joint(':'),
        alone(':'),
        word("core"),
        joint(':'),
        alone(':'),
        word("option"),
        joint(':'),
        alone(':'),
        word("Option"),
        joint(':'),
        alone(':'),
        word("Some"),
        Token::Group(
            Delimiter::Parenthesis,
            seq![Token::Group(Delimiter::Parenthesis, lazy_value(init))],
        ),
        alone(';'),
    ]
}

/// The block that yields the link's content, filling the link first where it
/// is empty:
/// `if <chain>.is_none() { <fill> } <chain>.as_mut().unwrap()`.
pub open spec fn lazy_reach(block_state: Seq<char>, init: Seq<Token>) -> Seq<Token> {
    seq![
        word("if"),
        Token::Ident(block_state),
        alone('.'),
        word("is_none"),
        Token::Group(Delimiter::Parenthesis, seq![]),
        Token::Group(Delimiter::Brace, lazy_fill(block_state, init)),
        Token::Ident(block_state),
        alone('.'),
        word("as_mut"),
        Token::Group(Delimiter::Parenthesis, seq![]),
        alone('.'),
        word("unwrap"),
        Token::Group(Delimiter::Parenthesis, seq![]),
    ]
}

/// The pattern that takes the link's content apart, into the value and the
/// rest of the chain: `ref mut __tmp, ref mut <chain>`.
pub open spec fn lazy_parts(block_state: Seq<char>) -> Seq<Token> {
    seq![
        word("ref"),
        word("mut"),
        word("__tmp"),
        alone(','),
        word("ref"),
        word("mut"),
        Token::Ident(block_state),
    ]
}

/// The statements that a lazy declaration is rewritten into:
/// `let (<parts>) = { <reach> }; let <pat> = *__tmp;`.
pub open spec fn lazy_access(pat: Seq<Token>, block_state: Seq<char>, init: Seq<Token>) -> Seq<
    Token,
> {
    (seq![
        word("let"),
        Token::Group(Delimiter::Parenthesis, lazy_parts(block_state)),
        alone('='),
        Token::Group(Delimiter::Brace, lazy_reach(block_state, init)),
        alone(';'),
        word("let"),
    ] + pat).push(alone('=')).push(alone('*')).push(word("__tmp")).push(alone(';'))
}

/// Writes the value that an empty link is filled with.
fn write_value(init: TokenStream) -> (stream: TokenStream)
    ensures
        token_seq(stream) == lazy_value(token_seq(init)),
{
    proof {
        lemma_words();
    }
    let mut stream = empty();
    push_group(&mut stream, Delimiter::Brace, init);
    push_punct(&mut stream, ',', false);
    push_ident(&mut stream, "Default");
    push_colons(&mut stream);
    push_ident(&mut stream, "default");
    push_group(&mut stream, Delimiter::Parenthesis, empty());
    stream
}

/// Writes the assignment that fills the link.
fn write_fill(block_state: &Name, init: TokenStream) -> (stream: TokenStream)
    ensures
        token_seq(stream) == lazy_fill(block_state@, token_seq(init)),
{
    proof {
        lemma_words();
    }
    let mut argument = empty();
    push_group(&mut argument, Delimiter::Parenthesis, write_value(init));
    let mut stream = empty();
    push_punct(&mut stream, '*', false);
    block_state.push_to(&mut stream);
    push_punct(&mut stream, '=', false);
    push_colons(&mut stream);
    push_ident(&mut stream, "core");
    push_colons(&mut stream);
    push_ident(&mut stream, "option");
    push_colons(&mut stream);
    push_ident(&mut stream, "Option");
    push_colons(&mut stream);
    push_ident(&mut stream, "Some");
    push_group(&mut stream, Delimiter::Parenthesis, argument);
    push_punct(&mut stream, ';', false);
    stream
}

/// Writes the block that yields the link's content.
fn write_reach(block_state: &Name, init: TokenStream) -> (stream: TokenStream)
    ensures
        token_seq(stream) == lazy_reach(block_state@, token_seq(init)),
{
    proof {
        lemma_words();
    }
    let mut stream = empty();
    push_ident(&mut stream, "if");
    block_state.push_to(&mut stream);
    push_punct(&mut stream, '.', false);
    push_ident(&mut stream, "is_none");
    push_group(&mut stream, Delimiter::Parenthesis, empty());
    push_group(&mut stream, Delimiter::Brace, write_fill(block_state, init));
    block_state.push_to(&mut stream);
    push_punct(&mut stream, '.', false);
    push_ident(&mut stream, "as_mut");
    push_group(&mut stream, Delimiter::Parenthesis, empty());
    push_punct(&mut stream, '.', false);
    push_ident(&mut stream, "unwrap");
    push_group(&mut stream, Delimiter::Parenthesis, empty());
    stream
}

/// Writes the pattern that takes the link's content apart.
fn write_parts(block_state: &Name) -> (stream: TokenStream)
    ensures
        token_seq(stream) == lazy_parts(block_state@),
{
    proof {
        lemma_words();
    }
    let mut stream = empty();
    push_ident(&mut stream, "ref");
    push_ident(&mut stream, "mut");
    push_ident(&mut stream, "__tmp");
    push_punct(&mut stream, ',', false);
    push_ident(&mut stream, "ref");
    push_ident(&mut stream, "mut");
    block_state.push_to(&mut stream);
    stream
}

impl InplaceLetStmt {
    /// Reads a declaration in lazy mode.
    pub fn try_from(local: &Local) -> (result: Result<InplaceLetStmt, Error>)
        ensures
            match result {
                Ok(stmt) => inplace_of(local@) == Ok::<InplaceLetView, ErrorKind>(stmt@),
                Err(error) => inplace_of(local@) == Err::<InplaceLetView, ErrorKind>(error.kind)
                    && token_seq(error.anchor) == anchor_of(local@, error.kind),
            },
    {
        let ty = match LocalTyVisitor::find(local) {
            Some(ty) => ty,
            None => {
                return Err(Error::new(ErrorKind::MissingType, &local.tokens));
            },
        };
        let init = match extract_init(local) {
            Ok(init) => init,
            Err(error) => {
                return Err(error);
            },
        };
        Ok(InplaceLetStmt { pat: copy(&local.pat), ty, init })
    }

    /// Adds the declaration's type to the chain of its block and rewrites the
    /// declaration into a step along that chain.
    pub fn low(self, block_state: &Name, stack: &mut Vec<TokenStream>) -> (stmt: TokenStream)
        ensures
            streams(final(stack)@) == streams(old(stack)@).push(self@.ty),
            token_seq(stmt) == lazy_access(self@.pat, block_state@, self@.init),
    {
        stack.push(self.ty);
        assert(streams(stack@) =~= streams(old(stack)@).push(self@.ty));
        write_lazy_access(&self.pat, block_state, self.init)
    }
}

/// Writes the statements that a lazy declaration is rewritten into.
pub fn write_lazy_access(pat: &TokenStream, block_state: &Name, init: TokenStream) -> (stmt:
    TokenStream)
    ensures
        token_seq(stmt) == lazy_access(token_seq(*pat), block_state@, token_seq(init)),
{
    proof {
        lemma_words();
    }
    let mut stmt = empty();
    push_ident(&mut stmt, "let");
    push_group(&mut stmt, Delimiter::Parenthesis, write_parts(block_state));
    push_punct(&mut stmt, '=', false);
    push_group(&mut stmt, Delimiter::Brace, write_reach(block_state, init));
    push_punct(&mut stmt, ';', false);
    push_ident(&mut stmt, "let");
    push_stream(&mut stmt, pat);
    push_punct(&mut stmt, '=', false);
    push_punct(&mut stmt, '*', false);
    push_ident(&mut stmt, "__tmp");
    push_punct(&mut stmt, ';', false);
    stmt
}

} // verus!
