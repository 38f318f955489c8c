//! Declarations whose initializer runs when the record is constructed.

use crate::error::{Error, ErrorKind};
use crate::retained_let::{
    anchor_of, direct_read, extract_init, init_of, write_direct_read, LocalTyVisitor,
};
use crate::state::{FieldKind, State, StateField, StateFieldView, StateView};
use crate::syntax::{Local, LocalView};
use crate::tokens::{copy, token_seq, Name, Token};
use proc_macro2::TokenStream;
use vstd::prelude::*;

verus! {

/// A declaration in eager mode.
pub struct DefaultLetStmt {
    pub pat: TokenStream,
    pub ty: TokenStream,
    pub init: TokenStream,
}

/// Such a declaration as a mathematical value.
pub ghost struct DefaultLetView {
    pub pat: Seq<Token>,
    pub ty: Seq<Token>,
    pub init: Seq<Token>,
}

impl View for DefaultLetStmt {
    type V = DefaultLetView;

    open spec fn view(&self) -> DefaultLetView {
        DefaultLetView {
            pat: token_seq(self.pat),
            ty: token_seq(self.ty),
            init: token_seq(self.init),
        }
    }
}

/// What eager mode makes of a declaration: it needs a type, and an
/// initializer that cannot leave the function.
pub open spec fn default_of(local: LocalView) -> Result<DefaultLetView, ErrorKind> {
    if local.ty is None {
        Err(ErrorKind::MissingType)
    } else {
        match init_of(local) {
            Ok(init) => Ok(DefaultLetView { pat: local.pat, ty: local.ty->0, init }),
            Err(kind) => Err(kind),
        }
    }
}

impl DefaultLetStmt {
    /// Reads a declaration in eager mode.
    pub fn try_from(local: &Local) -> (result: Result<DefaultLetStmt, Error>)
        ensures
            match result {
                Ok(stmt) => default_of(local@) == Ok::<DefaultLetView, ErrorKind>(stmt@),
                Err(error) => default_of(local@) == Err::<DefaultLetView, ErrorKind>(error.kind)
                    && token_seq(error.anchor) == anchor_of(local@, error.kind),
            },
    {
        let ty = match LocalTyVisitor::find(local) {
            Some(ty) => ty,
            None => {
                return Err(Error::new(ErrorKind::MissingType, &local.tokens));
            },
        };
        let init = match extract_init(local) {
            Ok(init) => init,
            Err(error) => {
                return Err(error);
            },
        };
        Ok(DefaultLetStmt { pat: copy(&local.pat), ty, init })
    }

    /// Commits an eager slot for the declaration and rewrites the declaration
    /// into a read of that slot.
    pub fn low(self, state_arg: &Name, state: &mut State) -> (stmt: TokenStream)
        ensures
            final(state)@ == (StateView {
                fields: old(state)@.fields.push(
                    StateFieldView { kind: FieldKind::Eager, ty: self@.ty, init: self@.init },
                ),
                ..old(state)@
            }),
            token_seq(stmt) == direct_read(self@.pat, state_arg@, old(state)@.fields.len()),
    {
        let index = state.push_field(
            StateField { kind: FieldKind::Eager, ty: self.ty, init: self.init },
        );
        write_direct_read(&self.pat, state_arg, index)
    }
}

} // verus!
