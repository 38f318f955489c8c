//! What can be wrong with an annotation or with the declaration under it.

use crate::tokens::{compile_error_tokens, copy, diagnostic, string_literal, token_seq};
use proc_macro2::TokenStream;
use vstd::prelude::*;

verus! {

/// Why an annotation or a tagged declaration is refused.
#[derive(Clone, Copy, Debug, PartialEq, Eq, Structural)]
pub enum ErrorKind {
    /// The selector of an inner annotation is none of the known modes.
    UnknownMode,
    /// Something follows the selector of an inner annotation.
    TrailingTokens,
    /// The declaration carries no type.
    MissingType,
    /// The declaration carries no initializer, and its mode computes the value locally.
    MissingInitializer,
    /// The initializer has an `else` branch that leaves the function.
    Diverges,
    /// The declaration carries an initializer, and its mode takes the value from the caller.
    UnexpectedInitializer,
    /// The declaration does not bind a single name, and its mode needs one for the constructor.
    UnnamedBinding,
    /// The outer annotation does not begin with the name of the storage type.
    MissingName,
    /// The name of the storage type is a keyword.
    InvalidName,
    /// The name of the storage type is an identifier from which the engine
    /// can derive no second name.
    UnsupportedName,
    /// The generic parameters of the outer annotation are not closed by `>`.
    UnclosedGenerics,
    /// The generic parameters of the outer annotation are malformed.
    InvalidGenerics,
    /// The constructor parameters of the outer annotation are no list of `name: type` pairs.
    InvalidParameters,
    /// Something other than a `where` clause follows the outer annotation.
    UnexpectedToken,
    /// The `where` clause of the outer annotation is malformed.
    InvalidWhere,
}

impl ErrorKind {
    /// A malformed annotation, as opposed to a declaration whose shape does not fit its mode.
    pub open spec fn is_syntax(self) -> bool {
        !(self == ErrorKind::MissingType || self == ErrorKind::MissingInitializer || self
            == ErrorKind::Diverges || self == ErrorKind::UnexpectedInitializer || self
            == ErrorKind::UnnamedBinding)
    }

    /// The message that the compiler shows.
    pub open spec fn text(self) -> Seq<char> {
        match self {
            ErrorKind::UnknownMode => "expected `inplace`, `default` or `provided`"@,
            ErrorKind::TrailingTokens => "unexpected token after the mode of a retained let"@,
            ErrorKind::MissingType => "missing type for retained let"@,
            ErrorKind::MissingInitializer => "missing initializer in retained let"@,
            ErrorKind::Diverges => "retained let cannot diverge"@,
            ErrorKind::UnexpectedInitializer => "provided retained let cannot have initializer"@,
            ErrorKind::UnnamedBinding => "provided retained let must bind a single name"@,
            ErrorKind::MissingName => "expected the name of the state type"@,
            ErrorKind::InvalidName => "expected an identifier for the state type, found a keyword"@,
            ErrorKind::UnsupportedName =>
                "unsupported identifier for the name of the state type"@,
            ErrorKind::UnclosedGenerics => "expected `>` to close the generic parameters"@,
            ErrorKind::InvalidGenerics => "malformed generic parameters for the state type"@,
            ErrorKind::InvalidParameters => "expected a list of `name: type` pairs"@,
            ErrorKind::UnexpectedToken => "unexpected token, expected `where`"@,
            ErrorKind::InvalidWhere => "malformed `where` clause for the state type"@,
        }
    }

    /// Tells a malformed annotation from a declaration that does not fit its mode.
    pub fn syntax(&self) -> (result: bool)
        ensures
            result == self.is_syntax(),
    {
        match self {
            ErrorKind::MissingType => false,
            ErrorKind::MissingInitializer => false,
            ErrorKind::Diverges => false,
            ErrorKind::UnexpectedInitializer => false,
            ErrorKind::UnnamedBinding => false,
            _ => true,
        }
    }

    /// The message that the compiler shows.
    pub fn message(&self) -> (text: &'static str)
        ensures
            text@ == self.text(),
    {
        match self {
            ErrorKind::UnknownMode => "expected `inplace`, `default` or `provided`",
            ErrorKind::TrailingTokens => "unexpected token after the mode of a retained let",
            ErrorKind::MissingType => "missing type for retained let",
            ErrorKind::MissingInitializer => "missing initializer in retained let",
            ErrorKind::Diverges => "retained let cannot diverge",
            ErrorKind::UnexpectedInitializer => "provided retained let cannot have initializer",
            ErrorKind::UnnamedBinding => "provided retained let must bind a single name",
            ErrorKind::MissingName => "expected the name of the state type",
            ErrorKind::InvalidName => "expected an identifier for the state type, found a keyword",
            ErrorKind::UnsupportedName =>
                "unsupported identifier for the name of the state type",
            ErrorKind::UnclosedGenerics => "expected `>` to close the generic parameters",
            ErrorKind::InvalidGenerics => "malformed generic parameters for the state type",
            ErrorKind::InvalidParameters => "expected a list of `name: type` pairs",
            ErrorKind::UnexpectedToken => "unexpected token, expected `where`",
            ErrorKind::InvalidWhere => "malformed `where` clause for the state type",
        }
    }
}

/// A refusal, with the tokens at whose place the compiler reports it.
pub struct Error {
    pub kind: ErrorKind,
    pub anchor: TokenStream,
}

impl Error {
    /// A refusal of the given kind at the place of the given tokens.
    pub fn new(kind: ErrorKind, anchor: &TokenStream) -> (error: Error)
        ensures
            error.kind == kind,
            token_seq(error.anchor) == token_seq(*anchor),
    {
        Error { kind, anchor: copy(anchor) }
    }

    /// The inert statement that stands where the refused declaration stood:
    /// an invocation of `compile_error!` with the message.
    pub fn to_compile_error(&self) -> (stream: TokenStream)
        ensures
            token_seq(stream) == compile_error_tokens(string_literal(self.kind.text())),
    {
        diagnostic(&self.anchor, self.kind.message())
    }
}

} // verus!
