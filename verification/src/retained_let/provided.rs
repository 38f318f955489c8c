//! Declarations whose value the caller hands to the record's constructor.

use crate::error::{Error, ErrorKind};
use crate::retained_let::{direct_read, write_direct_read, LocalTyVisitor};
use crate::state::{
    FieldKind, State, StateField, StateFieldView, StateProvided, StateProvidedView, StateView,
};
use crate::syntax::{Local, LocalView};
use crate::tokens::{copy, empty, push_group, token_seq, Delimiter, Name, Token};
use proc_macro2::TokenStream;
use vstd::prelude::*;

verus! {

/// A declaration in caller-provided mode.
pub struct ProvidedLetStmt {
    pub name: TokenStream,
    pub pat: TokenStream,
    pub ty: TokenStream,
}

/// Such a declaration as a mathematical value.
pub ghost struct ProvidedLetView {
    pub name: Seq<Token>,
    pub pat: Seq<Token>,
    pub ty: Seq<Token>,
}

impl View for ProvidedLetStmt {
    type V = ProvidedLetView;

    open spec fn view(&self) -> ProvidedLetView {
        ProvidedLetView {
            name: token_seq(self.name),
            pat: token_seq(self.pat),
            ty: token_seq(self.ty),
        }
    }
}

/// What caller-provided mode makes of a declaration: it needs a type, no
/// initializer, and a pattern that binds one name.
pub open spec fn provided_of(local: LocalView) -> Result<ProvidedLetView, ErrorKind> {
    if local.ty is None {
        Err(ErrorKind::MissingType)
    } else if local.init is Some {
        Err(ErrorKind::UnexpectedInitializer)
    } else if local.names.len() != 1 {
        Err(ErrorKind::UnnamedBinding)
    } else {
        Ok(ProvidedLetView { name: local.names[0], pat: local.pat, ty: local.ty->0 })
    }
}

/// The expression that fills a caller-provided slot in the constructor: the
/// parameter of that name, in a block.
pub open spec fn provided_init(name: Seq<Token>) -> Seq<Token> {
    seq![Token::Group(Delimiter::Brace, name)]
}

/// Finds the name that a declaration binds.
pub struct LocalNameVisitor;

impl LocalNameVisitor {
    /// The name that the declaration binds, if it binds exactly one.
    pub fn find(local: &Local) -> (name: Option<TokenStream>)
        ensures
            match name {
                Some(name) => local@.names.len() == 1 && local@.names[0] == token_seq(name),
                None => local@.names.len() != 1,
            },
    {
        if local.names.len() == 1 {
            Some(copy(&local.names[0]))
        } else {
            None
        }
    }
}

impl ProvidedLetStmt {
    /// Reads a declaration in caller-provided mode. An error is reported at
    /// the place of the declaration.
    pub fn try_from(local: &Local) -> (result: Result<ProvidedLetStmt, Error>)
        ensures
            match result {
                Ok(stmt) => provided_of(local@) == Ok::<ProvidedLetView, ErrorKind>(stmt@),
                Err(error) => provided_of(local@) == Err::<ProvidedLetView, ErrorKind>(error.kind)
                    && token_seq(error.anchor) == local@.tokens,
            },
    {
        let ty = match LocalTyVisitor::find(local) {
            Some(ty) => ty,
            None => {
                return Err(Error::new(ErrorKind::MissingType, &local.tokens));
            },
        };
        if local.init.is_some() {
            return Err(Error::new(ErrorKind::UnexpectedInitializer, &local.tokens));
        }
        let name = match LocalNameVisitor::find(local) {
            Some(name) => name,
            None => {
                return Err(Error::new(ErrorKind::UnnamedBinding, &local.tokens));
            },
        };
        Ok(ProvidedLetStmt { name, pat: copy(&local.pat), ty })
    }

    /// Adds a constructor parameter of the declaration's name and type,
    /// commits a slot that the constructor fills with it, and rewrites the
    /// declaration into a read of that slot.
    pub fn low(self, state_arg: &Name, state: &mut State) -> (stmt: TokenStream)
        ensures
            final(state)@ == (StateView {
                fields: old(state)@.fields.push(
                    StateFieldView {
                        kind: FieldKind::Provided,
                        ty: self@.ty,
                        init: provided_init(self@.name),
                    },
                ),
                new_args: old(state)@.new_args.push(
                    StateProvidedView { name: self@.name, ty: self@.ty },
                ),
                ..old(state)@
            }),
            token_seq(stmt) == direct_read(self@.pat, state_arg@, old(state)@.fields.len()),
    {
        state.push_new_arg(StateProvided { name: copy(&self.name), ty: copy(&self.ty) });
        let mut init = empty();
        push_group(&mut init, Delimiter::Brace, self.name);
        let index = state.push_field(StateField { kind: FieldKind::Provided, ty: self.ty, init });
        write_direct_read(&self.pat, state_arg, index)
    }
}

} // verus!
