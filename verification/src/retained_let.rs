//! Tagged `let` declarations: how the annotation selects a mode, what each
//! mode asks of the declaration, and how a block's declarations are rewritten.

pub mod default;
pub mod inplace;
pub mod provided;

use crate::error::{Error, ErrorKind};
use crate::retained_let::default::{default_of, DefaultLetStmt, DefaultLetView};
use crate::retained_let::inplace::{
    inplace_of, lazy_access, streams, write_lazy_access, InplaceLetStmt, InplaceLetView,
};
use crate::retained_let::provided::{
    provided_init, provided_of, ProvidedLetStmt, ProvidedLetView,
};
use crate::state::{
    FieldKind, State, StateField, StateFieldView, StateProvidedView, StateView,
};
use crate::syntax::{Attribute, AttributeView, Local, LocalView};
use crate::tokens::{
    alone, compile_error_tokens, copy, decimal, empty, joint, lemma_words, push_colons,
    push_group, push_ident, push_index, push_punct, push_stream, read, slice, string_literal,
    token_seq, word, Delimiter, Name, Token, Tree,
};
use proc_macro2::TokenStream;
use vstd::prelude::*;
use vstd::string::StringExecFns;

verus! {

/// How a tagged declaration gets its value.
#[derive(Clone, Copy, Debug, PartialEq, Eq, Structural)]
pub enum Init {
    /// In place: the initializer runs the first time control reaches the
    /// declaration, and never again for the same record.
    Inplace,
    /// With the record: the initializer runs when the record is constructed.
    Default,
    /// By the caller: the value is a parameter of the record's constructor.
    Provided,
}

/// The mode that a selector names.
pub open spec fn selector(text: Seq<char>) -> Option<Init> {
    if text == "inplace"@ {
        Some(Init::Inplace)
    } else if text == "default"@ {
        Some(Init::Default)
    } else if text == "provided"@ || text == "item"@ {
        Some(Init::Provided)
    } else {
        None
    }
}

/// What the arguments of an inner annotation select: one known selector and
/// nothing else.
pub open spec fn parse_init(tokens: Seq<Token>) -> Result<Init, ErrorKind> {
    if tokens.len() > 0 && tokens[0] is Ident && selector(tokens[0]->Ident_0) is Some {
        if tokens.len() == 1 {
            Ok(selector(tokens[0]->Ident_0)->0)
        } else {
            Err(ErrorKind::TrailingTokens)
        }
    } else {
        Err(ErrorKind::UnknownMode)
    }
}

/// The tokens at whose place a refusal of the arguments is reported: the
/// first token, where it is no known selector; the tokens behind the
/// selector, where something follows it.
pub open spec fn init_anchor(tokens: Seq<Token>, kind: ErrorKind) -> Seq<Token> {
    if kind == ErrorKind::TrailingTokens {
        tokens.subrange(1, tokens.len() as int)
    } else if tokens.len() > 0 {
        tokens.subrange(0, 1)
    } else {
        tokens
    }
}

impl Init {
    /// The mode that a selector names, if it names one.
    pub fn from_selector(text: &String) -> (init: Option<Init>)
        ensures
            init == selector(text@),
    {
        if *text == String::from_str("inplace") {
            Some(Init::Inplace)
        } else if *text == String::from_str("default") {
            Some(Init::Default)
        } else if *text == String::from_str("provided") || *text == String::from_str("item") {
            Some(Init::Provided)
        } else {
            None
        }
    }

    /// Reads the arguments of an inner annotation. An error is reported at the
    /// place of the offending token.
    pub fn parse(input: &TokenStream) -> (result: Result<Init, Error>)
        ensures
            match result {
                Ok(init) => parse_init(token_seq(*input)) == Ok::<Init, ErrorKind>(init),
                Err(error) => parse_init(token_seq(*input)) == Err::<Init, ErrorKind>(error.kind)
                    && token_seq(error.anchor) == init_anchor(token_seq(*input), error.kind),
            },
    {
        let trees = read(input);
        if trees.len() > 0 {
            if let Tree::Ident(text) = &trees[0] {
                if let Some(init) = Init::from_selector(text) {
                    if trees.len() == 1 {
                        return Ok(init);
                    } else {
                        let behind = slice(input, 1, trees.len());
                        return Err(Error::new(ErrorKind::TrailingTokens, &behind));
                    }
                }
            }
            let first = slice(input, 0, 1);
            return Err(Error::new(ErrorKind::UnknownMode, &first));
        }
        Err(Error::new(ErrorKind::UnknownMode, input))
    }
}

/// The inner annotation on a declaration.
pub struct RetainedLetAttr {
    pub init: Init,
}

/// What an attribute says of the declaration under it: nothing, where it is
/// not the inner annotation; else the mode, which is in place where no
/// selector is given.
pub open spec fn attr_init(attr: AttributeView) -> Option<Result<Init, ErrorKind>> {
    if !attr.outer || attr.path != Some("retained"@) {
        None
    } else {
        match attr.list {
            None => Some(Ok(Init::Inplace)),
            Some(tokens) => Some(parse_init(tokens)),
        }
    }
}

impl RetainedLetAttr {
    /// Reads one attribute.
    pub fn try_from_attr(attr: &Attribute) -> (result: Option<Result<RetainedLetAttr, Error>>)
        ensures
            match result {
                None => attr_init(attr@) is None,
                Some(Ok(found)) => attr_init(attr@) == Some(Ok::<Init, ErrorKind>(found.init)),
                Some(Err(error)) => attr_init(attr@) == Some(Err::<Init, ErrorKind>(error.kind))
                    && attr@.list is Some && token_seq(error.anchor) == init_anchor(
                    attr@.list->0,
                    error.kind,
                ),
            },
    {
        if !attr.outer {
            return None;
        }
        match &attr.path {
            None => {
                return None;
            },
            Some(path) => {
                if !(*path == String::from_str("retained")) {
                    return None;
                }
            },
        }
        match &attr.list {
            None => Some(Ok(RetainedLetAttr { init: Init::Inplace })),
            Some(list) => match Init::parse(list) {
                Ok(init) => Some(Ok(RetainedLetAttr { init })),
                Err(error) => Some(Err(error)),
            },
        }
    }
}

/// Finds the type that a declaration is annotated with.
pub struct LocalTyVisitor;

impl LocalTyVisitor {
    /// The type of the declaration, if it carries one.
    pub fn find(local: &Local) -> (ty: Option<TokenStream>)
        ensures
            match ty {
                Some(ty) => local@.ty == Some(token_seq(ty)),
                None => local@.ty is None,
            },
    {
        match &local.ty {
            Some(ty) => Some(copy(ty)),
            None => None,
        }
    }
}

/// The initializer that a declaration computes its value with: its expression,
/// where the declaration has an initializer that cannot leave the function.
pub open spec fn init_of(local: LocalView) -> Result<Seq<Token>, ErrorKind> {
    match local.init {
        Some(init) => if init.diverge is Some {
            Err(ErrorKind::Diverges)
        } else {
            Ok(init.expr)
        },
        None => Err(ErrorKind::MissingInitializer),
    }
}

/// The tokens at whose place a refusal of a declaration is reported: the
/// `else` branch where it is the fault, else the whole declaration.
pub open spec fn anchor_of(local: LocalView, kind: ErrorKind) -> Seq<Token> {
    if kind == ErrorKind::Diverges && local.init is Some && local.init->0.diverge is Some {
        local.init->0.diverge->0
    } else {
        local.tokens
    }
}

/// Takes the initializer expression of a declaration.
pub fn extract_init(local: &Local) -> (result: Result<TokenStream, Error>)
    ensures
        match result {
            Ok(init) => init_of(local@) == Ok::<Seq<Token>, ErrorKind>(token_seq(init)),
            Err(error) => init_of(local@) == Err::<Seq<Token>, ErrorKind>(error.kind)
                && token_seq(error.anchor) == anchor_of(local@, error.kind),
        },
{
    match &local.init {
        Some(init) => match &init.diverge {
            Some(diverge) => Err(Error::new(ErrorKind::Diverges, diverge)),
            None => Ok(copy(&init.expr)),
        },
        None => Err(Error::new(ErrorKind::MissingInitializer, &local.tokens)),
    }
}

/// The statement that binds a declaration's pattern to a slot that always
/// holds a value: `let <pat> = <state>.<index>;`.
pub open spec fn direct_read(pat: Seq<Token>, state_arg: Seq<char>, index: nat) -> Seq<Token> {
    (seq![word("let")] + pat).push(alone('=')).push(Token::Ident(state_arg)).push(alone('.')).push(
        Token::Literal(decimal(index)),
    ).push(alone(';'))
}

/// Writes the statement that reads a slot directly.
pub(crate) fn write_direct_read(pat: &TokenStream, state_arg: &Name, index: usize) -> (stmt:
    TokenStream)
    ensures
        token_seq(stmt) == direct_read(token_seq(*pat), state_arg@, index as nat),
{
    proof {
        lemma_words();
    }
    let mut stmt = empty();
    push_ident(&mut stmt, "let");
    push_stream(&mut stmt, pat);
    push_punct(&mut stmt, '=', false);
    state_arg.push_to(&mut stmt);
    push_punct(&mut stmt, '.', false);
    push_index(&mut stmt, index);
    push_punct(&mut stmt, ';', false);
    stmt
}

/// A tagged declaration, read according to its mode.
pub enum RetainedLetStmt {
    Inplace(InplaceLetStmt),
    Default(DefaultLetStmt),
    Provided(ProvidedLetStmt),
}

/// A tagged declaration as a mathematical value.
pub ghost enum RetainedLetView {
    Inplace(InplaceLetView),
    Default(DefaultLetView),
    Provided(ProvidedLetView),
}

impl View for RetainedLetStmt {
    type V = RetainedLetView;

    open spec fn view(&self) -> RetainedLetView {
        match *self {
            RetainedLetStmt::Inplace(stmt) => RetainedLetView::Inplace(stmt@),
            RetainedLetStmt::Default(stmt) => RetainedLetView::Default(stmt@),
            RetainedLetStmt::Provided(stmt) => RetainedLetView::Provided(stmt@),
        }
    }
}

/// The position of the attribute that decides: the last one that is an inner
/// annotation.
pub open spec fn last_retained(attrs: Seq<AttributeView>) -> Option<int>
    decreases attrs.len(),
{
    if attrs.len() == 0 {
        None
    } else if attr_init(attrs.last()) is Some {
        Some(attrs.len() - 1)
    } else {
        last_retained(attrs.drop_last())
    }
}

/// What a mode makes of a declaration.
pub open spec fn shaped(local: LocalView, init: Init) -> Result<RetainedLetView, ErrorKind> {
    match init {
        Init::Inplace => match inplace_of(local) {
            Ok(stmt) => Ok(RetainedLetView::Inplace(stmt)),
            Err(kind) => Err(kind),
        },
        Init::Default => match default_of(local) {
            Ok(stmt) => Ok(RetainedLetView::Default(stmt)),
            Err(kind) => Err(kind),
        },
        Init::Provided => match provided_of(local) {
            Ok(stmt) => Ok(RetainedLetView::Provided(stmt)),
            Err(kind) => Err(kind),
        },
    }
}

/// What the engine makes of a `let` statement: nothing, where it is not
/// tagged; else the declaration read according to its mode, or the reason for
/// which it is refused.
pub open spec fn retained_of(local: LocalView) -> Option<Result<RetainedLetView, ErrorKind>> {
    match last_retained(local.attrs) {
        None => None,
        Some(at) => match attr_init(local.attrs[at])->0 {
            Ok(init) => Some(shaped(local, init)),
            Err(kind) => Some(Err(kind)),
        },
    }
}

/// The tokens at whose place a refusal of a `let` statement is reported: the
/// offending token of the deciding annotation where its arguments are at
/// fault, else what the declaration's shape gives.
pub open spec fn refusal_anchor(local: LocalView, kind: ErrorKind) -> Seq<Token> {
    if kind == ErrorKind::UnknownMode || kind == ErrorKind::TrailingTokens {
        init_anchor(local.attrs[last_retained(local.attrs)->0].list->0, kind)
    } else {
        anchor_of(local, kind)
    }
}

/// Attributes that are no inner annotation do not decide.
pub proof fn lemma_last_retained_skips(attrs: Seq<AttributeView>, from: int)
    requires
        0 <= from <= attrs.len(),
        forall|j: int| from <= j < attrs.len() ==> attr_init(#[trigger] attrs[j]) is None,
    ensures
        last_retained(attrs) == last_retained(attrs.take(from)),
    decreases attrs.len() - from,
{
    if from == attrs.len() {
        assert(attrs.take(from) =~= attrs);
    } else {
        lemma_last_retained_skips(attrs.drop_last(), from);
        assert(attrs.drop_last().take(from) =~= attrs.take(from));
    }
}

impl RetainedLetStmt {
    /// Reads a `let` statement. The last inner annotation on it decides.
    pub fn try_from_local(local: &Local) -> (result: Option<Result<RetainedLetStmt, Error>>)
        ensures
            match result {
                None => retained_of(local@) is None,
                Some(Ok(stmt)) => retained_of(local@) == Some(
                    Ok::<RetainedLetView, ErrorKind>(stmt@),
                ),
                Some(Err(error)) => retained_of(local@) == Some(
                    Err::<RetainedLetView, ErrorKind>(error.kind),
                ) && token_seq(error.anchor) == refusal_anchor(local@, error.kind),
            },
    {
        let mut i = local.attrs.len();
        while i > 0
            invariant
                i <= local.attrs.len(),
                forall|j: int|
                    i <= j < local.attrs.len() ==> attr_init(#[trigger] local@.attrs[j]) is None,
            decreases i,
        {
            i -= 1;
            let found = RetainedLetAttr::try_from_attr(&local.attrs[i]);
            proof {
                assert(local@.attrs[i as int] == local.attrs[i as int]@);
                if found is Some {
                    lemma_last_retained_skips(local@.attrs, i + 1);
                    assert(local@.attrs.take(i + 1).last() == local@.attrs[i as int]);
                }
            }
            match found {
                Some(Ok(attr)) => {
                    return Some(Self::try_from_local_inner(local, attr));
                },
                Some(Err(error)) => {
                    return Some(Err(error));
                },
                None => {},
            }
        }
        proof {
            lemma_last_retained_skips(local@.attrs, 0);
        }
        None
    }

    /// Reads a declaration according to the mode of its annotation.
    pub fn try_from_local_inner(local: &Local, attr: RetainedLetAttr) -> (result: Result<
        RetainedLetStmt,
        Error,
    >)
        ensures
            match result {
                Ok(stmt) => shaped(local@, attr.init) == Ok::<RetainedLetView, ErrorKind>(stmt@),
                Err(error) => shaped(local@, attr.init) == Err::<RetainedLetView, ErrorKind>(
                    error.kind,
                ) && token_seq(error.anchor) == anchor_of(local@, error.kind) && error.kind
                    != ErrorKind::UnknownMode && error.kind != ErrorKind::TrailingTokens,
            },
    {
        match attr.init {
            Init::Inplace => match InplaceLetStmt::try_from(local) {
                Ok(stmt) => Ok(RetainedLetStmt::Inplace(stmt)),
                Err(error) => Err(error),
            },
            Init::Default => match DefaultLetStmt::try_from(local) {
                Ok(stmt) => Ok(RetainedLetStmt::Default(stmt)),
                Err(error) => Err(error),
            },
            Init::Provided => match ProvidedLetStmt::try_from(local) {
                Ok(stmt) => Ok(RetainedLetStmt::Provided(stmt)),
                Err(error) => Err(error),
            },
        }
    }
}

/// The type `::core::option::Option<(<content>)>`.
pub open spec fn option_of(content: Seq<Token>) -> Seq<Token> {
    seq![
        joint(':'),
        alone(':'),
        word("core"),
        joint(':'),
        alone(':'),
        word("option"),
        joint(':'),
        alone(':'),
        word("Option"),
        alone('<'),
        Token::Group(Delimiter::Parenthesis, content),
        alone('>'),
    ]
}

/// The type of a composite slot: the chain of a block's lazy declarations.
/// Each link is an optional pair of a declaration's value and the rest of the
/// chain; the chain ends in `()`. So `[A, B]` gives
/// `Option<(A, Option<(B, ())>)>`, and the first declaration is the outermost.
pub open spec fn chain_type(stack: Seq<Seq<Token>>) -> Seq<Token>
    decreases stack.len(),
{
    if stack.len() == 0 {
        seq![Token::Group(Delimiter::Parenthesis, seq![])]
    } else {
        option_of(stack[0].push(alone(',')) + chain_type(stack.skip(1)))
    }
}

/// The expression that a composite slot starts with:
/// `::core::option::Option::None`.
pub open spec fn chain_init() -> Seq<Token> {
    seq![
        joint(':'),
        alone(':'),
        word("core"),
        joint(':'),
        alone(':'),
        word("option"),
        joint(':'),
        alone(':'),
        word("Option"),
        joint(':'),
        alone(':'),
        word("None"),
    ]
}

/// The statement at the head of a block that has lazy declarations: it binds
/// the block's name for its chain to the block's composite slot:
/// `let <chain> = &mut <state>.<index>;`.
pub open spec fn chain_binding(block_state: Seq<char>, state_arg: Seq<char>, index: nat) -> Seq<
    Token,
> {
    seq![
        word("let"),
        Token::Ident(block_state),
        alone('='),
        alone('&'),
        word("mut"),
        Token::Ident(state_arg),
        alone('.'),
        Token::Literal(decimal(index)),
        alone(';'),
    ]
}

/// Writes the type of an optional tuple.
fn write_option(content: TokenStream) -> (stream: TokenStream)
    ensures
        token_seq(stream) == option_of(token_seq(content)),
{
    proof {
        lemma_words();
    }
    let mut stream = empty();
    push_colons(&mut stream);
    push_ident(&mut stream, "core");
    push_colons(&mut stream);
    push_ident(&mut stream, "option");
    push_colons(&mut stream);
    push_ident(&mut stream, "Option");
    push_punct(&mut stream, '<', false);
    push_group(&mut stream, Delimiter::Parenthesis, content);
    push_punct(&mut stream, '>', false);
    stream
}

/// Writes the type of a composite slot.
fn write_chain_type(stack: &Vec<TokenStream>) -> (stream: TokenStream)
    ensures
        token_seq(stream) == chain_type(streams(stack@)),
{
    let ghost types = streams(stack@);
    let mut stream = empty();
    push_group(&mut stream, Delimiter::Parenthesis, empty());
    let mut i = stack.len();
    assert(types.skip(i as int) =~= Seq::empty());
    while i > 0
        invariant
            i <= stack.len(),
            types == streams(stack@),
            token_seq(stream) == chain_type(types.skip(i as int)),
        decreases i,
    {
        i -= 1;
        let mut content = empty();
        push_stream(&mut content, &stack[i]);
        push_punct(&mut content, ',', false);
        push_stream(&mut content, &stream);
        proof {
            let rest = types.skip(i as int);
            assert(rest[0] == token_seq(stack@[i as int]));
            assert(rest.skip(1) =~= types.skip(i + 1));
            assert(token_seq(content) =~= rest[0].push(alone(',')) + chain_type(rest.skip(1)));
        }
        stream = write_option(content);
    }
    assert(types.skip(0) =~= types);
    stream
}

/// Writes the expression that a composite slot starts with.
fn write_chain_init() -> (stream: TokenStream)
    ensures
        token_seq(stream) == chain_init(),
{
    proof {
        lemma_words();
    }
    let mut stream = empty();
    push_colons(&mut stream);
    push_ident(&mut stream, "core");
    push_colons(&mut stream);
    push_ident(&mut stream, "option");
    push_colons(&mut stream);
    push_ident(&mut stream, "Option");
    push_colons(&mut stream);
    push_ident(&mut stream, "None");
    stream
}

/// The rewriting of one block: the names it uses, how deep it is nested, the
/// types of the lazy declarations met in it so far, and the position that
/// is reserved for their chain.
pub struct RetainedLetExpander {
    state_arg: Name,
    depth: usize,
    stack: Vec<TokenStream>,
    slot: Option<usize>,
}

/// The rewriting of one block as a mathematical value.
pub ghost struct ExpanderView {
    /// The name under which the function holds its record.
    pub state_arg: Seq<char>,
    /// The nesting depth of the block; the function body has depth 0.
    pub depth: nat,
    /// The types of the lazy declarations met so far, in source order.
    pub stack: Seq<Seq<Token>>,
    /// The position of the block's composite slot, once the block's first
    /// lazy declaration was met.
    pub slot: Option<nat>,
}

impl ExpanderView {
    /// The name under which the block holds what is left of its chain: the
    /// record's name followed by the depth.
    pub open spec fn block_state(self) -> Seq<char> {
        self.state_arg + decimal(self.depth)
    }
}

impl View for RetainedLetExpander {
    type V = ExpanderView;

    closed spec fn view(&self) -> ExpanderView {
        ExpanderView {
            state_arg: self.state_arg@,
            depth: self.depth as nat,
            stack: streams(self.stack@),
            slot: match self.slot {
                Some(slot) => Some(slot as nat),
                None => None,
            },
        }
    }
}

/// The depth of the blocks nested in a block. It stops counting where the
/// machine's numbers end.
pub open spec fn next_depth(depth: nat) -> nat {
    if depth < usize::MAX {
        depth + 1
    } else {
        depth
    }
}

/// The depth of the blocks nested in a block.
pub fn deeper(depth: usize) -> (next: usize)
    ensures
        next == next_depth(depth as nat),
{
    if depth < usize::MAX {
        depth + 1
    } else {
        depth
    }
}

/// What becomes of one statement of a block.
pub enum Rewrite {
    /// The statement stays as it is.
    Keep,
    /// The statement is replaced by these tokens.
    Replace(TokenStream),
    /// The statement is a lazy declaration. It is replaced by a step along
    /// the chain of the given name, which binds the given pattern. The step
    /// is written around the initializer as it stands once the blocks nested
    /// in it are rewritten.
    Reach { pat: TokenStream, chain: Name },
}

/// What becomes of a statement, as a mathematical value.
pub ghost enum RewriteView {
    Keep,
    Replace(Seq<Token>),
    Reach { pat: Seq<Token>, chain: Seq<char> },
}

impl View for Rewrite {
    type V = RewriteView;

    open spec fn view(&self) -> RewriteView {
        match *self {
            Rewrite::Keep => RewriteView::Keep,
            Rewrite::Replace(tokens) => RewriteView::Replace(token_seq(tokens)),
            Rewrite::Reach { pat, chain } => RewriteView::Reach {
                pat: token_seq(pat),
                chain: chain@,
            },
        }
    }
}

/// The tokens that replace a statement, given its initializer as it stands
/// once the blocks nested in it are rewritten; nothing for a statement that
/// stays.
pub open spec fn replacement(rewrite: RewriteView, init: Seq<Token>) -> Option<Seq<Token>> {
    match rewrite {
        RewriteView::Keep => None,
        RewriteView::Replace(tokens) => Some(tokens),
        RewriteView::Reach { pat, chain } => Some(lazy_access(pat, chain, init)),
    }
}

impl Rewrite {
    /// The tokens that replace the statement. The initializer is that of the
    /// statement as it stands once the blocks nested in it are rewritten; it
    /// matters for a lazy declaration alone.
    pub fn tokens(self, init: TokenStream) -> (result: Option<TokenStream>)
        ensures
            match result {
                Some(tokens) => replacement(self@, token_seq(init)) == Some(token_seq(tokens)),
                None => replacement(self@, token_seq(init)) is None,
            },
    {
        match self {
            Rewrite::Keep => None,
            Rewrite::Replace(tokens) => Some(tokens),
            Rewrite::Reach { pat, chain } => Some(write_lazy_access(&pat, &chain, init)),
        }
    }
}

/// The composite slot of a block with the given chain.
pub open spec fn composite(stack: Seq<Seq<Token>>) -> StateFieldView {
    StateFieldView {
        kind: FieldKind::Composite(stack.len() as usize),
        ty: chain_type(stack),
        init: chain_init(),
    }
}

/// The slot that holds the place of a block's composite slot while the block
/// is walked: a chain without links.
pub open spec fn pending() -> StateFieldView {
    composite(Seq::empty())
}

/// The block and the record once the block has a place for its chain: the
/// first lazy declaration of a block reserves the next position of the
/// record; the later ones find it reserved.
pub open spec fn reserved(expander: ExpanderView, state: StateView) -> (ExpanderView, StateView) {
    if expander.slot is None {
        (
            ExpanderView { slot: Some(state.fields.len()), ..expander },
            StateView { fields: state.fields.push(pending()), ..state },
        )
    } else {
        (expander, state)
    }
}

/// What rewriting a tagged declaration does to the block: a lazy declaration
/// adds its type to the chain, which has its place from then on.
pub open spec fn low_expander(
    expander: ExpanderView,
    state: StateView,
    stmt: RetainedLetView,
) -> ExpanderView {
    match stmt {
        RetainedLetView::Inplace(stmt) => ExpanderView {
            stack: expander.stack.push(stmt.ty),
            ..reserved(expander, state).0
        },
        _ => expander,
    }
}

/// What rewriting a tagged declaration does to the record: an eager or a
/// caller-provided declaration commits its slot behind those that are there;
/// the first lazy declaration of a block reserves the place of the block's
/// composite slot.
pub open spec fn low_state(
    expander: ExpanderView,
    state: StateView,
    stmt: RetainedLetView,
) -> StateView {
    match stmt {
        RetainedLetView::Inplace(_) => reserved(expander, state).1,
        RetainedLetView::Default(stmt) => StateView {
            fields: state.fields.push(
                StateFieldView { kind: FieldKind::Eager, ty: stmt.ty, init: stmt.init },
            ),
            ..state
        },
        RetainedLetView::Provided(stmt) => StateView {
            fields: state.fields.push(
                StateFieldView {
                    kind: FieldKind::Provided,
                    ty: stmt.ty,
                    init: provided_init(stmt.name),
                },
            ),
            new_args: state.new_args.push(StateProvidedView { name: stmt.name, ty: stmt.ty }),
            ..state
        },
    }
}

/// The statements that a tagged declaration is rewritten into, in a block
/// with the given names and a record with the given number of slots.
pub open spec fn low_tokens(expander: ExpanderView, fields: nat, stmt: RetainedLetView) -> Seq<
    Token,
> {
    match stmt {
        RetainedLetView::Inplace(stmt) => lazy_access(
            stmt.pat,
            expander.block_state(),
            stmt.init,
        ),
        RetainedLetView::Default(stmt) => direct_read(stmt.pat, expander.state_arg, fields),
        RetainedLetView::Provided(stmt) => direct_read(stmt.pat, expander.state_arg, fields),
    }
}

/// What the engine makes of one statement of a block: what becomes of the
/// statement, of the block and of the record.
pub ghost struct Rewritten {
    pub rewrite: RewriteView,
    pub expander: ExpanderView,
    pub state: StateView,
}

/// What the engine makes of one statement of a block, after the blocks nested
/// in it were rewritten. A statement that is no tagged `let` stays, and
/// nothing changes. A tagged declaration is rewritten according to its mode.
/// One that is refused changes nothing either, and is replaced by the inert
/// statement that reports the refusal.
pub open spec fn rewrite_of(
    expander: ExpanderView,
    state: StateView,
    local: Option<LocalView>,
) -> Rewritten {
    let retained = match local {
        Some(local) => retained_of(local),
        None => None,
    };
    match retained {
        None => Rewritten { rewrite: RewriteView::Keep, expander, state },
        Some(Ok(RetainedLetView::Inplace(stmt))) => Rewritten {
            rewrite: RewriteView::Reach { pat: stmt.pat, chain: expander.block_state() },
            expander: low_expander(expander, state, RetainedLetView::Inplace(stmt)),
            state: low_state(expander, state, RetainedLetView::Inplace(stmt)),
        },
        Some(Ok(stmt)) => Rewritten {
            rewrite: RewriteView::Replace(low_tokens(expander, state.fields.len(), stmt)),
            expander,
            state: low_state(expander, state, stmt),
        },
        Some(Err(kind)) => Rewritten {
            rewrite: RewriteView::Replace(compile_error_tokens(string_literal(kind.text()))),
            expander,
            state,
        },
    }
}

/// The position of a block's composite slot: the one that the block's first
/// lazy declaration reserved. Where the record has no slot there, it is the
/// next position of the record.
pub open spec fn chain_index(expander: ExpanderView, state: StateView) -> nat {
    match expander.slot {
        Some(slot) => if slot < state.fields.len() {
            slot
        } else {
            state.fields.len()
        },
        None => state.fields.len(),
    }
}

/// What the end of a block does to the record: the composite slot of a block
/// with lazy declarations gets its type, at its position; a block without
/// changes nothing.
pub open spec fn finish_state(expander: ExpanderView, state: StateView) -> StateView {
    if expander.stack.len() == 0 {
        state
    } else if chain_index(expander, state) < state.fields.len() {
        StateView {
            fields: state.fields.update(
                chain_index(expander, state) as int,
                composite(expander.stack),
            ),
            ..state
        }
    } else {
        StateView { fields: state.fields.push(composite(expander.stack)), ..state }
    }
}

/// The statement at the head of a block, once the block ends: the binding
/// of the block's chain, where the block has lazy declarations.
pub open spec fn head_of(expander: ExpanderView, state: StateView) -> Option<Seq<Token>> {
    if expander.stack.len() == 0 {
        None
    } else {
        Some(
            chain_binding(
                expander.block_state(),
                expander.state_arg,
                chain_index(expander, state),
            ),
        )
    }
}

impl RetainedLetExpander {
    /// Begins the rewriting of a block at the given depth.
    pub fn new(state_arg: Name, depth: usize) -> (expander: RetainedLetExpander)
        ensures
            expander@ == (ExpanderView {
                state_arg: state_arg@,
                depth: depth as nat,
                stack: Seq::empty(),
                slot: None,
            }),
    {
        let expander = RetainedLetExpander { state_arg, depth, stack: Vec::new(), slot: None };
        assert(expander@.stack =~= Seq::empty());
        expander
    }

    /// Reserves the place of the block's composite slot, where it has none yet.
    fn reserve(&mut self, state: &mut State)
        ensures
            (final(self)@, final(state)@) == reserved(old(self)@, old(state)@),
    {
        if self.slot.is_none() {
            let links: Vec<TokenStream> = Vec::new();
            assert(streams(links@) =~= Seq::empty());
            let index = state.push_field(
                StateField {
                    kind: FieldKind::Composite(0),
                    ty: write_chain_type(&links),
                    init: write_chain_init(),
                },
            );
            self.slot = Some(index);
        }
    }

    /// Rewrites a tagged declaration according to its mode.
    pub fn low(&mut self, stmt: RetainedLetStmt, state: &mut State) -> (tokens: TokenStream)
        ensures
            final(self)@ == low_expander(old(self)@, old(state)@, stmt@),
            final(state)@ == low_state(old(self)@, old(state)@, stmt@),
            token_seq(tokens) == low_tokens(old(self)@, old(state)@.fields.len(), stmt@),
    {
        match stmt {
            RetainedLetStmt::Inplace(stmt) => {
                self.reserve(state);
                let block_state = self.state_arg.numbered(self.depth);
                stmt.low(&block_state, &mut self.stack)
            },
            RetainedLetStmt::Default(stmt) => stmt.low(&self.state_arg, state),
            RetainedLetStmt::Provided(stmt) => stmt.low(&self.state_arg, state),
        }
    }

    /// Takes one `let` statement of the block, after the blocks nested in it
    /// were rewritten, and tells what becomes of it.
    pub fn rewrite(&mut self, local: &Local, state: &mut State) -> (rewrite: Rewrite)
        ensures
            (Rewritten { rewrite: rewrite@, expander: final(self)@, state: final(state)@ })
                == rewrite_of(old(self)@, old(state)@, Some(local@)),
    {
        match RetainedLetStmt::try_from_local(local) {
            Some(Ok(RetainedLetStmt::Inplace(stmt))) => {
                self.reserve(state);
                self.stack.push(stmt.ty);
                assert(streams(self.stack@) =~= streams(old(self).stack@).push(stmt@.ty));
                Rewrite::Reach { pat: stmt.pat, chain: self.state_arg.numbered(self.depth) }
            },
            Some(Ok(stmt)) => Rewrite::Replace(self.low(stmt, state)),
            Some(Err(error)) => Rewrite::Replace(error.to_compile_error()),
            None => Rewrite::Keep,
        }
    }

    /// Ends the rewriting of the block. Where the block has lazy
    /// declarations, its composite slot gets its type at the position that
    /// the first of them reserved, and the result is the statement to put at
    /// the head of the block.
    pub fn finish(self, state: &mut State) -> (binding: Option<TokenStream>)
        ensures
            final(state)@ == finish_state(self@, old(state)@),
            match binding {
                Some(binding) => head_of(self@, old(state)@) == Some(token_seq(binding)),
                None => head_of(self@, old(state)@) is None,
            },
    {
        proof {
            lemma_words();
        }
        if self.stack.len() == 0 {
            return None;
        }
        let field = StateField {
            kind: FieldKind::Composite(self.stack.len()),
            ty: write_chain_type(&self.stack),
            init: write_chain_init(),
        };
        let index = match self.slot {
            Some(slot) => if slot < state.fields.len() {
                slot
            } else {
                state.fields.len()
            },
            None => state.fields.len(),
        };
        if index < state.fields.len() {
            state.set_field(index, field);
        } else {
            state.push_field(field);
        }
        let mut binding = empty();
        push_ident(&mut binding, "let");
        self.state_arg.numbered(self.depth).push_to(&mut binding);
        push_punct(&mut binding, '=', false);
        push_punct(&mut binding, '&', false);
        push_ident(&mut binding, "mut");
        self.state_arg.push_to(&mut binding);
        push_punct(&mut binding, '.', false);
        push_index(&mut binding, index);
        push_punct(&mut binding, ';', false);
        Some(binding)
    }
}

/// The later record has every slot and every constructor parameter of the
/// earlier one, each at its position, and the same declaration.
pub open spec fn keeps_slots(before: StateView, after: StateView) -> bool {
    &&& after.vis == before.vis
    &&& after.decl == before.decl
    &&& before.fields.len() <= after.fields.len()
    &&& after.fields.take(before.fields.len() as int) =~= before.fields
    &&& before.new_args.len() <= after.new_args.len()
    &&& after.new_args.take(before.new_args.len() as int) =~= before.new_args
}

/// The slot that is committed for a tagged declaration that is no lazy one.
pub open spec fn direct_slot(stmt: RetainedLetView) -> StateFieldView
    recommends
        !(stmt is Inplace),
{
    match stmt {
        RetainedLetView::Provided(stmt) => StateFieldView {
            kind: FieldKind::Provided,
            ty: stmt.ty,
            init: provided_init(stmt.name),
        },
        RetainedLetView::Default(stmt) => StateFieldView {
            kind: FieldKind::Eager,
            ty: stmt.ty,
            init: stmt.init,
        },
        RetainedLetView::Inplace(_) => pending(),
    }
}

/// The pattern that a tagged declaration binds.
pub open spec fn pattern_of(stmt: RetainedLetView) -> Seq<Token> {
    match stmt {
        RetainedLetView::Inplace(stmt) => stmt.pat,
        RetainedLetView::Default(stmt) => stmt.pat,
        RetainedLetView::Provided(stmt) => stmt.pat,
    }
}

/// The read that replaces an eager or a caller-provided declaration names
/// the slot that was committed for it, in every record that keeps the slots
/// committed so far.
pub proof fn lemma_direct_read_finds_its_slot(
    expander: ExpanderView,
    state: StateView,
    stmt: RetainedLetView,
    later: StateView,
)
    requires
        !(stmt is Inplace),
        keeps_slots(low_state(expander, state, stmt), later),
    ensures
        low_tokens(expander, state.fields.len(), stmt) == direct_read(
            pattern_of(stmt),
            expander.state_arg,
            state.fields.len(),
        ),
        later.fields[state.fields.len() as int] == direct_slot(stmt),
{
    let index = state.fields.len() as int;
    let after = low_state(expander, state, stmt);
    assert(later.fields.take(after.fields.len() as int)[index] == later.fields[index]);
}

} // verus!
