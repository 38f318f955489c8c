//! Retained local state for plain functions: the engine that rewrites tagged
//! `let` declarations into accesses to a storage record, and the slots that
//! such a record is made of.

pub mod decl;
pub mod error;
pub mod private;
pub mod retained_let;
pub mod state;
pub mod storage;
pub mod syntax;
pub mod tokens;
pub mod walk;

use crate::decl::{decl_anchor, parse_decl};
use crate::error::{Error, ErrorKind};
use crate::retained_let::RetainedLetExpander;
use crate::state::{
    closed, emitted, state_parameter, write_closed, State, StateArg, StateDecl, StateDeclView,
    StateView,
};
use crate::syntax::{Block, BlockView};
use crate::tokens::{push_stream, token_seq, Name, Token};
use crate::walk::{walk_block, Plan, PlanView, Walked};
use proc_macro2::TokenStream;
use vstd::prelude::*;

verus! {

/// The name under which a rewritten function holds its record.
pub open spec fn state_name() -> Seq<char> {
    "__inner"@
}

/// The name under which a rewritten function holds its record.
pub fn state_arg() -> (name: Name)
    ensures
        name@ == state_name(),
{
    proof {
        reveal_strlit("__inner");
    }
    match Name::new("__inner") {
        Some(name) => name,
        None => vstd::pervasive::unreached(),
    }
}

/// What the transformation makes of a function with the given visibility
/// and body under the given declaration: the record, which starts without
/// slots, and the plan for the body, after one walk over the body.
pub open spec fn transformed(decl: StateDeclView, vis: Seq<Token>, body: BlockView) -> Walked {
    walk_block(
        state_name(),
        0,
        Walked {
            plan: PlanView { rewrites: Seq::empty(), heads: Seq::empty() },
            state: StateView { vis, decl, fields: Seq::empty(), new_args: Seq::empty() },
        },
        body,
    )
}

/// Transforms a function: reads the arguments of the outer annotation, walks
/// the body, and gives the record with its slots and the plan by which the
/// body is rewritten. A malformed annotation is refused, and nothing is
/// walked.
pub fn retained(attr: &TokenStream, vis: TokenStream, body: &Block) -> (result: Result<
    (State, Plan),
    Error,
>)
    ensures
        match result {
            Ok((state, plan)) => parse_decl(token_seq(*attr)) is Ok && (Walked {
                plan: plan@,
                state: state@,
            }) == transformed(parse_decl(token_seq(*attr))->Ok_0, token_seq(vis), body@),
            Err(error) => parse_decl(token_seq(*attr)) == Err::<StateDeclView, ErrorKind>(
                error.kind,
            ) && token_seq(error.anchor) == decl_anchor(token_seq(*attr), error.kind),
        },
{
    match StateDecl::parse(attr) {
        Ok(decl) => {
            let mut state = State::new(vis, decl);
            let mut plan = Plan::new();
            RetainedLetExpander::expand(&state_arg(), 0, &mut state, body, &mut plan);
            Ok((state, plan))
        },
        Err(error) => Err(error),
    }
}

/// The parameter that the rewritten function takes its record through.
pub fn parameter(state: &State) -> (stream: TokenStream)
    ensures
        token_seq(stream) == state_parameter(state_name(), state@.decl),
{
    StateArg { name: state_arg(), decl: &state.decl }.to_tokens()
}

/// The parameters of the rewritten function: the function's own, as written
/// between the parentheses, and behind them the parameter that takes the
/// record.
pub fn inputs(state: &State, own: &TokenStream) -> (stream: TokenStream)
    ensures
        token_seq(stream) == closed(token_seq(*own)) + state_parameter(
            state_name(),
            state@.decl,
        ),
{
    let mut stream = write_closed(own);
    push_stream(&mut stream, &parameter(state));
    stream
}

/// Ends the transformation: the definitions of the record, then the
/// rewritten function.
pub fn output(state: &State, function: &TokenStream) -> (stream: TokenStream)
    ensures
        token_seq(stream) == emitted(state@) + token_seq(*function),
{
    let mut stream = state.to_tokens();
    push_stream(&mut stream, function);
    stream
}

} // verus!
