//! The storage record of one function: what was declared for it, the slots
//! that the walk over the body found, and the definitions emitted from both.

use crate::tokens::{
    alone, copy, empty, is_ident, joint, lemma_words, push_colons, push_group, push_ident,
    push_punct, push_stream, read, token_seq, word, Delimiter, Name, Token, Tree,
};
use proc_macro2::TokenStream;
use vstd::prelude::*;

verus! {

/// What the outer annotation declares: the name of the storage type, its
/// generic parameters, and the parameters that its constructor takes from the
/// caller.
pub struct StateDecl {
    /// The name of the storage type as an identifier that the engine can
    /// derive a second name from: without the mark of a raw identifier.
    pub name: Name,
    /// The name of the storage type as written.
    pub written: TokenStream,
    /// The generic parameters with their bounds, as they stand behind `impl`.
    pub impl_generics: TokenStream,
    /// The generic parameters by name alone, as they stand behind the type's name.
    pub type_generics: TokenStream,
    /// The `where` clause, or nothing.
    pub where_clause: TokenStream,
    /// The declared constructor parameters, as written between the parentheses.
    pub constructor: TokenStream,
}

/// A declaration as a mathematical value.
pub ghost struct StateDeclView {
    pub name: Seq<char>,
    pub written: Seq<Token>,
    pub impl_generics: Seq<Token>,
    pub type_generics: Seq<Token>,
    pub where_clause: Seq<Token>,
    pub constructor: Seq<Token>,
}

impl View for StateDecl {
    type V = StateDeclView;

    open spec fn view(&self) -> StateDeclView {
        StateDeclView {
            name: self.name@,
            written: token_seq(self.written),
            impl_generics: token_seq(self.impl_generics),
            type_generics: token_seq(self.type_generics),
            where_clause: token_seq(self.where_clause),
            constructor: token_seq(self.constructor),
        }
    }
}

/// How a slot of the record gets its value.
#[derive(Clone, Copy, Debug, PartialEq, Eq, Structural)]
pub enum FieldKind {
    /// The initializer runs when the record is constructed.
    Eager,
    /// The caller hands the value to the constructor.
    Provided,
    /// The lazy declarations of one block, chained: the record starts with the
    /// slot empty, and each declaration is initialized when control first
    /// reaches it. The number is that of the declarations. While the block
    /// is walked the slot holds its place without a link; the end of the
    /// block gives it its chain.
    Composite(usize),
}

/// One slot of the record: a field of the emitted tuple struct.
pub struct StateField {
    pub kind: FieldKind,
    /// The type of the field.
    pub ty: TokenStream,
    /// The expression that the constructor fills the field with.
    pub init: TokenStream,
}

/// A slot as a mathematical value.
pub ghost struct StateFieldView {
    pub kind: FieldKind,
    pub ty: Seq<Token>,
    pub init: Seq<Token>,
}

impl View for StateField {
    type V = StateFieldView;

    open spec fn view(&self) -> StateFieldView {
        StateFieldView { kind: self.kind, ty: token_seq(self.ty), init: token_seq(self.init) }
    }
}

/// A constructor parameter that a caller-provided declaration adds.
pub struct StateProvided {
    pub name: TokenStream,
    pub ty: TokenStream,
}

/// A constructor parameter as a mathematical value.
pub ghost struct StateProvidedView {
    pub name: Seq<Token>,
    pub ty: Seq<Token>,
}

impl View for StateProvided {
    type V = StateProvidedView;

    open spec fn view(&self) -> StateProvidedView {
        StateProvidedView { name: token_seq(self.name), ty: token_seq(self.ty) }
    }
}

/// The storage record under construction.
pub struct State {
    /// The visibility of the function, which the storage type shares.
    pub vis: TokenStream,
    pub decl: StateDecl,
    /// The slots, in the order in which the walk discovered their
    /// declarations. Rewritten declarations address them by position.
    pub fields: Vec<StateField>,
    /// The constructor parameters that caller-provided declarations added, in
    /// the order of discovery.
    pub new_args: Vec<StateProvided>,
}

/// A record as a mathematical value.
pub ghost struct StateView {
    pub vis: Seq<Token>,
    pub decl: StateDeclView,
    pub fields: Seq<StateFieldView>,
    pub new_args: Seq<StateProvidedView>,
}

impl View for State {
    type V = StateView;

    open spec fn view(&self) -> StateView {
        StateView {
            vis: token_seq(self.vis),
            decl: self.decl@,
            fields: self.fields@.map_values(|field: StateField| field@),
            new_args: self.new_args@.map_values(|arg: StateProvided| arg@),
        }
    }
}

impl State {
    /// A record without slots.
    pub fn new(vis: TokenStream, decl: StateDecl) -> (state: State)
        ensures
            state@ == (StateView {
                vis: token_seq(vis),
                decl: decl@,
                fields: Seq::empty(),
                new_args: Seq::empty(),
            }),
    {
        let state = State { vis, decl, fields: Vec::new(), new_args: Vec::new() };
        assert(state@.fields =~= Seq::empty());
        assert(state@.new_args =~= Seq::empty());
        state
    }

    /// Commits a slot behind those that are there, and tells its position.
    pub fn push_field(&mut self, field: StateField) -> (index: usize)
        ensures
            index == old(self)@.fields.len(),
            final(self)@ == (StateView { fields: old(self)@.fields.push(field@), ..old(self)@ }),
    {
        let index = self.fields.len();
        self.fields.push(field);
        assert(self@.fields =~= old(self)@.fields.push(field@));
        index
    }

    /// Fills the slot at a position that was reserved.
    pub(crate) fn set_field(&mut self, index: usize, field: StateField)
        requires
            index < old(self)@.fields.len(),
        ensures
            final(self)@ == (StateView {
                fields: old(self)@.fields.update(index as int, field@),
                ..old(self)@
            }),
    {
        self.fields[index] = field;
        assert(self@.fields =~= old(self)@.fields.update(index as int, field@));
    }

    /// Adds a constructor parameter behind those that are there.
    pub fn push_new_arg(&mut self, arg: StateProvided)
        ensures
            final(self)@ == (StateView { new_args: old(self)@.new_args.push(arg@), ..old(self)@ }),
    {
        self.new_args.push(arg);
        assert(self@.new_args =~= old(self)@.new_args.push(arg@));
    }
}

/// The items of a list, each followed by a comma.
pub open spec fn listed(items: Seq<Seq<Token>>) -> Seq<Token>
    decreases items.len(),
{
    if items.len() == 0 {
        Seq::empty()
    } else {
        listed(items.drop_last()) + items.last().push(alone(','))
    }
}

/// A list as written, closed by a comma where it has items and ends in none.
pub open spec fn closed(list: Seq<Token>) -> Seq<Token> {
    if list.len() == 0 || list.last() matches Token::Punct(',', _) {
        list
    } else {
        list.push(alone(','))
    }
}

/// The path `::core::<item>`.
pub open spec fn core_item(item: Seq<char>) -> Seq<Token> {
    seq![joint(':'), alone(':'), word("core"), joint(':'), alone(':'), Token::Ident(item)]
}

/// The path `::core::<module>::<item>`.
pub open spec fn core_path(module: Seq<char>, item: Seq<char>) -> Seq<Token> {
    core_item(module).push(joint(':')).push(alone(':')).push(Token::Ident(item))
}

/// One constructor parameter: `<name>: <type>`.
pub open spec fn parameter(arg: StateProvidedView) -> Seq<Token> {
    arg.name.push(alone(':')) + arg.ty
}

/// The types of the slots, in their order.
pub open spec fn field_types(state: StateView) -> Seq<Seq<Token>> {
    state.fields.map_values(|field: StateFieldView| field.ty)
}

/// The expressions that the constructor fills the slots with, in their order.
pub open spec fn field_inits(state: StateView) -> Seq<Seq<Token>> {
    state.fields.map_values(|field: StateFieldView| field.init)
}

/// The parameters of the constructor: those that the outer annotation
/// declares, then those of the caller-provided declarations in the order of
/// their discovery.
pub open spec fn parameters(state: StateView) -> Seq<Token> {
    closed(state.decl.constructor) + listed(
        state.new_args.map_values(|arg: StateProvidedView| parameter(arg)),
    )
}

/// The constructor takes nothing from the caller.
pub open spec fn constructs_alone(state: StateView) -> bool {
    state.decl.constructor.len() == 0 && state.new_args.len() == 0
}

/// The name of the tuple struct that holds the slots: the name of the storage
/// type behind two underscores.
pub open spec fn inner_name(decl: StateDeclView) -> Seq<char> {
    "__"@ + decl.name
}

/// The storage type with its generic arguments: `<Name><generics>`.
pub open spec fn outer_type(decl: StateDeclView) -> Seq<Token> {
    decl.written + decl.type_generics
}

/// The tuple struct with its generic arguments: `__<Name><generics>`.
pub open spec fn inner_type(decl: StateDeclView) -> Seq<Token> {
    seq![Token::Ident(inner_name(decl))] + decl.type_generics
}

/// The tuple struct that holds the slots, one field for each, in their order:
/// `struct __<Name><generics>(<types>) <where>;`.
pub open spec fn inner_struct(state: StateView) -> Seq<Token> {
    ((seq![word("struct")] + inner_type(state.decl)).push(
        Token::Group(Delimiter::Parenthesis, listed(field_types(state))),
    ) + state.decl.where_clause).push(alone(';'))
}

/// The attributes of the storage type: `#[repr(transparent)] #[non_exhaustive]`.
pub open spec fn outer_attributes() -> Seq<Token> {
    seq![
        alone('#'),
        Token::Group(
            Delimiter::Bracket,
            seq![word("repr"), Token::Group(Delimiter::Parenthesis, seq![word("transparent")])],
        ),
        alone('#'),
        Token::Group(Delimiter::Bracket, seq![word("non_exhaustive")]),
    ]
}

/// The storage type itself, which wraps the tuple struct and shows nothing
/// of it:
/// `<attributes> <vis> struct <Name><generics>(__<Name><generics>,) <where>;`.
pub open spec fn outer_struct(state: StateView) -> Seq<Token> {
    ((((outer_attributes() + state.vis).push(word("struct")) + outer_type(state.decl)).push(
        Token::Group(Delimiter::Parenthesis, inner_type(state.decl).push(alone(','))),
    )) + state.decl.where_clause).push(alone(';'))
}

/// An impl block for the storage type:
/// `impl<generics> <implemented> <Name><generics> <where> { <body> }`, where
/// `implemented` is a trait's path and `for`, or nothing.
pub open spec fn impl_block(decl: StateDeclView, implemented: Seq<Token>, body: Seq<Token>) -> Seq<
    Token,
> {
    ((((seq![word("impl")] + decl.impl_generics) + implemented) + outer_type(decl))
        + decl.where_clause).push(Token::Group(Delimiter::Brace, body))
}

/// The parameters of `fmt`: `&self, f: &mut ::core::fmt::Formatter<'_>`.
pub open spec fn debug_parameters() -> Seq<Token> {
    (seq![alone('&'), word("self"), alone(','), word("f"), alone(':'), alone('&'), word("mut")]
        + core_path("fmt"@, "Formatter"@)).push(alone('<')).push(joint('\'')).push(word("_")).push(
        alone('>'),
    )
}

/// The argument of `debug_struct`: `::core::stringify!(<Name>)`.
pub open spec fn debug_name(decl: StateDeclView) -> Seq<Token> {
    core_item("stringify"@).push(alone('!')).push(
        Token::Group(Delimiter::Parenthesis, decl.written),
    )
}

/// The body of the `Debug` impl, which shows the name of the type alone:
/// `fn fmt(<parameters>) -> ::core::fmt::Result {
/// f.debug_struct(<name>).finish_non_exhaustive() }`.
pub open spec fn debug_body(decl: StateDeclView) -> Seq<Token> {
    (seq![
        word("fn"),
        word("fmt"),
        Token::Group(Delimiter::Parenthesis, debug_parameters()),
        joint('-'),
        alone('>'),
    ] + core_path("fmt"@, "Result"@)).push(
        Token::Group(
            Delimiter::Brace,
            seq![
                word("f"),
                alone('.'),
                word("debug_struct"),
                Token::Group(Delimiter::Parenthesis, debug_name(decl)),
                alone('.'),
                word("finish_non_exhaustive"),
                Token::Group(Delimiter::Parenthesis, seq![]),
            ],
        ),
    )
}

/// The trait that the `Debug` impl implements: `::core::fmt::Debug for`.
pub open spec fn debug_trait() -> Seq<Token> {
    core_path("fmt"@, "Debug"@).push(word("for"))
}

/// The constructor: it takes the parameters and fills each slot with its
/// expression, in the order of the slots:
/// `pub fn new(<parameters>) -> Self { Self(__<Name>(<expressions>)) }`.
pub open spec fn constructor_body(state: StateView) -> Seq<Token> {
    seq![
        word("pub"),
        word("fn"),
        word("new"),
        Token::Group(Delimiter::Parenthesis, parameters(state)),
        joint('-'),
        alone('>'),
        word("Self"),
        Token::Group(
            Delimiter::Brace,
            seq![
                word("Self"),
                Token::Group(
                    Delimiter::Parenthesis,
                    seq![
                        Token::Ident(inner_name(state.decl)),
                        Token::Group(Delimiter::Parenthesis, listed(field_inits(state))),
                    ],
                ),
            ],
        ),
    ]
}

/// The trait that the default constructor implements:
/// `::core::default::Default for`.
pub open spec fn default_trait() -> Seq<Token> {
    core_path("default"@, "Default"@).push(word("for"))
}

/// The default constructor: `fn default() -> Self { Self::new() }`.
pub open spec fn default_body() -> Seq<Token> {
    seq![
        word("fn"),
        word("default"),
        Token::Group(Delimiter::Parenthesis, seq![]),
        joint('-'),
        alone('>'),
        word("Self"),
        Token::Group(
            Delimiter::Brace,
            seq![
                word("Self"),
                joint(':'),
                alone(':'),
                word("new"),
                Token::Group(Delimiter::Parenthesis, seq![]),
            ],
        ),
    ]
}

/// The impl blocks of the storage type: `Debug`, the constructor, and the
/// default constructor where the constructor takes nothing from the caller.
pub open spec fn impl_blocks(state: StateView) -> Seq<Token> {
    let fixed = impl_block(state.decl, debug_trait(), debug_body(state.decl)) + impl_block(
        state.decl,
        Seq::empty(),
        constructor_body(state),
    );
    if constructs_alone(state) {
        fixed + impl_block(state.decl, default_trait(), default_body())
    } else {
        fixed
    }
}

/// Everything that is emitted for the record: the two structs, and the impl
/// blocks inside an anonymous constant: `const _: () = { <impl blocks> };`.
pub open spec fn emitted(state: StateView) -> Seq<Token> {
    (inner_struct(state) + outer_struct(state)).push(word("const")).push(word("_")).push(
        alone(':'),
    ).push(Token::Group(Delimiter::Parenthesis, seq![])).push(alone('=')).push(
        Token::Group(Delimiter::Brace, impl_blocks(state)),
    ).push(alone(';'))
}

/// The parameter through which the rewritten function takes its record,
/// bound to the tuple struct inside it:
/// `<Name>(<name>): &mut <Name><generics>`.
pub open spec fn state_parameter(name: Seq<char>, decl: StateDeclView) -> Seq<Token> {
    decl.written.push(Token::Group(Delimiter::Parenthesis, seq![Token::Ident(name)])).push(
        alone(':'),
    ).push(alone('&')).push(word("mut")) + outer_type(decl)
}

/// A list grows by one item and its comma.
pub proof fn lemma_listed_take(items: Seq<Seq<Token>>, i: int)
    requires
        0 <= i < items.len(),
    ensures
        listed(items.take(i + 1)) == listed(items.take(i)) + items[i].push(alone(',')),
{
    assert(items.take(i + 1).drop_last() =~= items.take(i));
}

/// Writes `::core::<item>`.
fn write_core_item(item: &str) -> (stream: TokenStream)
    requires
        is_ident(item@),
    ensures
        token_seq(stream) == core_item(item@),
{
    proof {
        lemma_words();
    }
    let mut stream = empty();
    push_colons(&mut stream);
    push_ident(&mut stream, "core");
    push_colons(&mut stream);
    push_ident(&mut stream, item);
    stream
}

/// Writes `::core::<module>::<item>`.
fn write_core_path(module: &str, item: &str) -> (stream: TokenStream)
    requires
        is_ident(module@),
        is_ident(item@),
    ensures
        token_seq(stream) == core_path(module@, item@),
{
    let mut stream = write_core_item(module);
    push_colons(&mut stream);
    push_ident(&mut stream, item);
    stream
}

/// Closes a list by a comma where it has items and ends in none.
pub fn write_closed(list: &TokenStream) -> (stream: TokenStream)
    ensures
        token_seq(stream) == closed(token_seq(*list)),
{
    let trees = read(list);
    let mut stream = copy(list);
    if trees.len() > 0 {
        let ends_in_comma = match &trees[trees.len() - 1] {
            Tree::Punct(ch, _) => *ch == ',',
            _ => false,
        };
        if !ends_in_comma {
            push_punct(&mut stream, ',', false);
        }
    }
    stream
}

impl StateProvided {
    /// The parameter as it stands in the constructor's list.
    pub fn to_tokens(&self) -> (stream: TokenStream)
        ensures
            token_seq(stream) == parameter(self@),
    {
        let mut stream = copy(&self.name);
        push_punct(&mut stream, ':', false);
        push_stream(&mut stream, &self.ty);
        stream
    }
}

impl StateDecl {
    /// Writes the storage type with its generic arguments.
    fn write_outer_type(&self) -> (stream: TokenStream)
        ensures
            token_seq(stream) == outer_type(self@),
    {
        let mut stream = copy(&self.written);
        push_stream(&mut stream, &self.type_generics);
        stream
    }

    /// Writes the tuple struct with its generic arguments.
    fn write_inner_type(&self) -> (stream: TokenStream)
        ensures
            token_seq(stream) == inner_type(self@),
    {
        let mut stream = empty();
        self.name.hidden().push_to(&mut stream);
        push_stream(&mut stream, &self.type_generics);
        stream
    }

    /// Writes an impl block for the storage type.
    fn write_impl_block(&self, implemented: &TokenStream, body: TokenStream) -> (stream:
        TokenStream)
        ensures
            token_seq(stream) == impl_block(self@, token_seq(*implemented), token_seq(body)),
    {
        proof {
            lemma_words();
        }
        let mut stream = empty();
        push_ident(&mut stream, "impl");
        push_stream(&mut stream, &self.impl_generics);
        push_stream(&mut stream, implemented);
        push_stream(&mut stream, &self.write_outer_type());
        push_stream(&mut stream, &self.where_clause);
        push_group(&mut stream, Delimiter::Brace, body);
        stream
    }

    /// Writes the body of the `Debug` impl.
    fn write_debug_body(&self) -> (stream: TokenStream)
        ensures
            token_seq(stream) == debug_body(self@),
    {
        proof {
            lemma_words();
        }
        let mut parameters = empty();
        push_punct(&mut parameters, '&', false);
        push_ident(&mut parameters, "self");
        push_punct(&mut parameters, ',', false);
        push_ident(&mut parameters, "f");
        push_punct(&mut parameters, ':', false);
        push_punct(&mut parameters, '&', false);
        push_ident(&mut parameters, "mut");
        push_stream(&mut parameters, &write_core_path("fmt", "Formatter"));
        push_punct(&mut parameters, '<', false);
        push_punct(&mut parameters, '\'', true);
        push_ident(&mut parameters, "_");
        push_punct(&mut parameters, '>', false);
        assert(token_seq(parameters) == debug_parameters());

        let shown = copy(&self.written);
        let mut name = write_core_item("stringify");
        push_punct(&mut name, '!', false);
        push_group(&mut name, Delimiter::Parenthesis, shown);
        assert(token_seq(name) == debug_name(self@));

        let mut block = empty();
        push_ident(&mut block, "f");
        push_punct(&mut block, '.', false);
        push_ident(&mut block, "debug_struct");
        push_group(&mut block, Delimiter::Parenthesis, name);
        push_punct(&mut block, '.', false);
        push_ident(&mut block, "finish_non_exhaustive");
        push_group(&mut block, Delimiter::Parenthesis, empty());
        assert(token_seq(block) == seq![
            word("f"),
            alone('.'),
            word("debug_struct"),
            Token::Group(Delimiter::Parenthesis, debug_name(self@)),
            alone('.'),
            word("finish_non_exhaustive"),
            Token::Group(Delimiter::Parenthesis, seq![]),
        ]);

        let mut stream = empty();
        push_ident(&mut stream, "fn");
        push_ident(&mut stream, "fmt");
        push_group(&mut stream, Delimiter::Parenthesis, parameters);
        push_punct(&mut stream, '-', true);
        push_punct(&mut stream, '>', false);
        push_stream(&mut stream, &write_core_path("fmt", "Result"));
        push_group(&mut stream, Delimiter::Brace, block);
        stream
    }
}

/// Writes the attributes of the storage type.
fn write_outer_attributes() -> (stream: TokenStream)
    ensures
        token_seq(stream) == outer_attributes(),
{
    proof {
        lemma_words();
    }
    let mut argument = empty();
    push_ident(&mut argument, "transparent");
    let mut repr = empty();
    push_ident(&mut repr, "repr");
    push_group(&mut repr, Delimiter::Parenthesis, argument);
    assert(token_seq(repr) == seq![
        word("repr"),
        Token::Group(Delimiter::Parenthesis, seq![word("transparent")]),
    ]);
    let mut non_exhaustive = empty();
    push_ident(&mut non_exhaustive, "non_exhaustive");
    assert(token_seq(non_exhaustive) == seq![word("non_exhaustive")]);
    let mut stream = empty();
    push_punct(&mut stream, '#', false);
    push_group(&mut stream, Delimiter::Bracket, repr);
    push_punct(&mut stream, '#', false);
    push_group(&mut stream, Delimiter::Bracket, non_exhaustive);
    stream
}

/// Writes the default constructor.
fn write_default_body() -> (stream: TokenStream)
    ensures
        token_seq(stream) == default_body(),
{
    proof {
        lemma_words();
    }
    let mut block = empty();
    push_ident(&mut block, "Self");
    push_colons(&mut block);
    push_ident(&mut block, "new");
    push_group(&mut block, Delimiter::Parenthesis, empty());
    assert(token_seq(block) == seq![
        word("Self"),
        joint(':'),
        alone(':'),
        word("new"),
        Token::Group(Delimiter::Parenthesis, seq![]),
    ]);
    let mut stream = empty();
    push_ident(&mut stream, "fn");
    push_ident(&mut stream, "default");
    push_group(&mut stream, Delimiter::Parenthesis, empty());
    push_punct(&mut stream, '-', true);
    push_punct(&mut stream, '>', false);
    push_ident(&mut stream, "Self");
    push_group(&mut stream, Delimiter::Brace, block);
    stream
}

impl State {
    /// Writes the types of the slots.
    fn write_field_types(&self) -> (stream: TokenStream)
        ensures
            token_seq(stream) == listed(field_types(self@)),
    {
        let ghost types = field_types(self@);
        let mut stream = empty();
        let mut i: usize = 0;
        assert(types.take(0) =~= Seq::empty());
        while i < self.fields.len()
            invariant
                i <= self.fields.len(),
                types == field_types(self@),
                token_seq(stream) == listed(types.take(i as int)),
            decreases self.fields.len() - i,
        {
            let ghost before = token_seq(stream);
            push_stream(&mut stream, &self.fields[i].ty);
            push_punct(&mut stream, ',', false);
            proof {
                lemma_listed_take(types, i as int);
                assert(token_seq(stream) =~= before + types[i as int].push(alone(',')));
            }
            i += 1;
        }
        assert(types.take(i as int) =~= types);
        stream
    }

    /// Writes the expressions that the constructor fills the slots with.
    fn write_field_inits(&self) -> (stream: TokenStream)
        ensures
            token_seq(stream) == listed(field_inits(self@)),
    {
        let ghost inits = field_inits(self@);
        let mut stream = empty();
        let mut i: usize = 0;
        assert(inits.take(0) =~= Seq::empty());
        while i < self.fields.len()
            invariant
                i <= self.fields.len(),
                inits == field_inits(self@),
                token_seq(stream) == listed(inits.take(i as int)),
            decreases self.fields.len() - i,
        {
            let ghost before = token_seq(stream);
            push_stream(&mut stream, &self.fields[i].init);
            push_punct(&mut stream, ',', false);
            proof {
                lemma_listed_take(inits, i as int);
                assert(token_seq(stream) =~= before + inits[i as int].push(alone(',')));
            }
            i += 1;
        }
        assert(inits.take(i as int) =~= inits);
        stream
    }

    /// Writes the parameters of the constructor.
    fn write_parameters(&self) -> (stream: TokenStream)
        ensures
            token_seq(stream) == parameters(self@),
    {
        let ghost added = self@.new_args.map_values(|arg: StateProvidedView| parameter(arg));
        let ghost declared = closed(self@.decl.constructor);
        let mut stream = write_closed(&self.decl.constructor);
        let mut i: usize = 0;
        assert(added.take(0) =~= Seq::empty());
        assert(declared + listed(added.take(0)) =~= declared);
        while i < self.new_args.len()
            invariant
                i <= self.new_args.len(),
                added == self@.new_args.map_values(|arg: StateProvidedView| parameter(arg)),
                declared == closed(self@.decl.constructor),
                token_seq(stream) == declared + listed(added.take(i as int)),
            decreases self.new_args.len() - i,
        {
            let ghost before = token_seq(stream);
            push_stream(&mut stream, &self.new_args[i].to_tokens());
            push_punct(&mut stream, ',', false);
            proof {
                lemma_listed_take(added, i as int);
                assert(token_seq(stream) =~= declared + (listed(added.take(i as int))
                    + added[i as int].push(alone(','))));
            }
            i += 1;
        }
        assert(added.take(i as int) =~= added);
        stream
    }

    /// Tells whether the constructor takes nothing from the caller.
    pub fn constructs_alone(&self) -> (result: bool)
        ensures
            result == constructs_alone(self@),
    {
        let declared = read(&self.decl.constructor);
        declared.len() == 0 && self.new_args.len() == 0
    }

    /// Writes the tuple struct that holds the slots.
    fn write_inner_struct(&self) -> (stream: TokenStream)
        ensures
            token_seq(stream) == inner_struct(self@),
    {
        proof {
            lemma_words();
        }
        let mut stream = empty();
        push_ident(&mut stream, "struct");
        push_stream(&mut stream, &self.decl.write_inner_type());
        push_group(&mut stream, Delimiter::Parenthesis, self.write_field_types());
        push_stream(&mut stream, &self.decl.where_clause);
        push_punct(&mut stream, ';', false);
        stream
    }

    /// Writes the storage type itself.
    fn write_outer_struct(&self) -> (stream: TokenStream)
        ensures
            token_seq(stream) == outer_struct(self@),
    {
        proof {
            lemma_words();
        }
        let mut wrapped = self.decl.write_inner_type();
        push_punct(&mut wrapped, ',', false);
        let mut stream = write_outer_attributes();
        push_stream(&mut stream, &self.vis);
        push_ident(&mut stream, "struct");
        push_stream(&mut stream, &self.decl.write_outer_type());
        push_group(&mut stream, Delimiter::Parenthesis, wrapped);
        push_stream(&mut stream, &self.decl.where_clause);
        push_punct(&mut stream, ';', false);
        stream
    }

    /// Writes the constructor.
    fn write_constructor_body(&self) -> (stream: TokenStream)
        ensures
            token_seq(stream) == constructor_body(self@),
    {
        proof {
            lemma_words();
        }
        let mut call = empty();
        self.decl.name.hidden().push_to(&mut call);
        push_group(&mut call, Delimiter::Parenthesis, self.write_field_inits());
        assert(token_seq(call) == seq![
            Token::Ident(inner_name(self@.decl)),
            Token::Group(Delimiter::Parenthesis, listed(field_inits(self@))),
        ]);
        let mut block = empty();
        push_ident(&mut block, "Self");
        push_group(&mut block, Delimiter::Parenthesis, call);
        assert(token_seq(block) == seq![
            word("Self"),
            Token::Group(
                Delimiter::Parenthesis,
                seq![
                    Token::Ident(inner_name(self@.decl)),
                    Token::Group(Delimiter::Parenthesis, listed(field_inits(self@))),
                ],
            ),
        ]);
        let mut stream = empty();
        push_ident(&mut stream, "pub");
        push_ident(&mut stream, "fn");
        push_ident(&mut stream, "new");
        push_group(&mut stream, Delimiter::Parenthesis, self.write_parameters());
        push_punct(&mut stream, '-', true);
        push_punct(&mut stream, '>', false);
        push_ident(&mut stream, "Self");
        push_group(&mut stream, Delimiter::Brace, block);
        stream
    }

    /// Writes the impl blocks of the storage type.
    fn write_impl_blocks(&self) -> (stream: TokenStream)
        ensures
            token_seq(stream) == impl_blocks(self@),
    {
        proof {
            lemma_words();
        }
        let mut debug_trait = write_core_path("fmt", "Debug");
        push_ident(&mut debug_trait, "for");
        let mut stream = self.decl.write_impl_block(&debug_trait, self.decl.write_debug_body());
        push_stream(
            &mut stream,
            &self.decl.write_impl_block(&empty(), self.write_constructor_body()),
        );
        if self.constructs_alone() {
            let mut default_trait = write_core_path("default", "Default");
            push_ident(&mut default_trait, "for");
            push_stream(
                &mut stream,
                &self.decl.write_impl_block(&default_trait, write_default_body()),
            );
        }
        stream
    }

    /// Emits the definitions of the record: the tuple struct with one field
    /// for each slot, in the order of the slots; the storage type that wraps
    /// it; a constructor that takes the declared parameters and those of the
    /// caller-provided slots, in the order of their discovery, and fills
    /// every slot; and a default constructor where the constructor takes no
    /// parameter.
    pub fn to_tokens(&self) -> (stream: TokenStream)
        ensures
            token_seq(stream) == emitted(self@),
    {
        proof {
            lemma_words();
        }
        let mut stream = self.write_inner_struct();
        push_stream(&mut stream, &self.write_outer_struct());
        push_ident(&mut stream, "const");
        push_ident(&mut stream, "_");
        push_punct(&mut stream, ':', false);
        push_group(&mut stream, Delimiter::Parenthesis, empty());
        push_punct(&mut stream, '=', false);
        push_group(&mut stream, Delimiter::Brace, self.write_impl_blocks());
        push_punct(&mut stream, ';', false);
        stream
    }
}

/// The parameter through which a rewritten function takes its record.
pub struct StateArg<'a> {
    /// The name under which the function holds its record.
    pub name: Name,
    pub decl: &'a StateDecl,
}

impl<'a> StateArg<'a> {
    /// The parameter as it stands at the end of the function's list.
    pub fn to_tokens(&self) -> (stream: TokenStream)
        ensures
            token_seq(stream) == state_parameter(self.name@, self.decl@),
    {
        proof {
            lemma_words();
        }
        let mut bound = empty();
        self.name.push_to(&mut bound);
        let mut stream = copy(&self.decl.written);
        push_group(&mut stream, Delimiter::Parenthesis, bound);
        push_punct(&mut stream, ':', false);
        push_punct(&mut stream, '&', false);
        push_ident(&mut stream, "mut");
        push_stream(&mut stream, &self.decl.write_outer_type());
        stream
    }
}

} // verus!
