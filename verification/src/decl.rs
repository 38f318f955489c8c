//! The grammar of the outer annotation: the name of the storage type, then
//! optional generic parameters, an optional parenthesized list of constructor
//! parameters, and an optional `where` clause.
//!
//! The engine finds where each part begins and ends. What stands inside the
//! generic parameters, the list and the clause is the host language's, and
//! syn reads it: the functions marked `external_body` below state what those
//! calls return, by names that stand for syn's results. What becomes of the
//! answers is decided in `StateDecl::assemble`, which takes them as arguments.

use crate::error::{Error, ErrorKind};
use crate::state::{StateDecl, StateDeclView};
use crate::tokens::{
    empty, is_ident, joint, read, slice, token_seq, word, Delimiter, Name, Token, Tree,
};
use proc_macro2::TokenStream;
use vstd::prelude::*;
use vstd::string::StringExecFns;

verus! {

/// The words that the language keeps to itself, and `_`: syn takes none of
/// them for a name.
pub open spec fn is_keyword(text: Seq<char>) -> bool {
    text == "_"@ || text == "abstract"@ || text == "as"@ || text == "async"@ || text == "await"@
        || text == "become"@ || text == "box"@ || text == "break"@ || text == "const"@ || text
        == "continue"@ || text == "crate"@ || text == "do"@ || text == "dyn"@ || text == "else"@
        || text == "enum"@ || text == "extern"@ || text == "false"@ || text == "final"@ || text
        == "fn"@ || text == "for"@ || text == "if"@ || text == "impl"@ || text == "in"@ || text
        == "let"@ || text == "loop"@ || text == "macro"@ || text == "match"@ || text == "mod"@
        || text == "move"@ || text == "mut"@ || text == "override"@ || text == "priv"@ || text
        == "pub"@ || text == "ref"@ || text == "return"@ || text == "Self"@ || text == "self"@
        || text == "static"@ || text == "struct"@ || text == "super"@ || text == "trait"@ || text
        == "true"@ || text == "try"@ || text == "type"@ || text == "typeof"@ || text == "unsafe"@
        || text == "unsized"@ || text == "use"@ || text == "virtual"@ || text == "where"@ || text
        == "while"@ || text == "yield"@
}

/// What syn makes of generic parameters: where it reads the tokens as such,
/// the parameters as they stand behind `impl`, with their bounds, and as they
/// stand behind the type's name, by name alone.
pub uninterp spec fn generics_of(tokens: Seq<Token>) -> Option<(Seq<Token>, Seq<Token>)>;

/// Whether syn reads the tokens as a list of `pattern: type` pairs between commas.
pub uninterp spec fn is_parameter_list(tokens: Seq<Token>) -> bool;

/// Whether syn reads the tokens as a `where` clause.
pub uninterp spec fn is_where_clause(tokens: Seq<Token>) -> bool;

/// `parse2` of syn, for `Ident`: on one identifier token, it succeeds
/// where the identifier is none of the words that syn's table lists as
/// keywords.
#[verifier::external_body]
pub(crate) fn parse_type_name(tokens: &TokenStream) -> (result: bool)
    ensures
        token_seq(*tokens).len() == 1 && token_seq(*tokens)[0] is Ident ==> result == !is_keyword(
            token_seq(*tokens)[0]->Ident_0,
        ),
{
    syn::parse2::<syn::Ident>(tokens.clone()).is_ok()
}

/// `parse2` of syn, for `Generics`, and `split_for_impl`: where syn reads the
/// tokens as generic parameters, the two forms in which an impl block names
/// them, as quote's `to_token_stream` prints them.
#[verifier::external_body]
pub(crate) fn parse_generics(tokens: &TokenStream) -> (result: Option<(TokenStream, TokenStream)>)
    ensures
        match result {
            Some((impl_generics, type_generics)) => generics_of(token_seq(*tokens)) == Some(
                (token_seq(impl_generics), token_seq(type_generics)),
            ),
            None => generics_of(token_seq(*tokens)) is None,
        },
{
    let generics = syn::parse2::<syn::Generics>(tokens.clone()).ok()?;
    let (impl_generics, type_generics, _) = generics.split_for_impl();
    Some(
        (
            quote::ToTokens::to_token_stream(&impl_generics),
            quote::ToTokens::to_token_stream(&type_generics),
        ),
    )
}

/// `Punctuated::parse_terminated` of syn, for `PatType` and commas, run by
/// `Parser::parse2`: succeeds where the tokens are a list of `pattern: type`
/// pairs between commas.
#[verifier::external_body]
pub(crate) fn parse_parameters(tokens: &TokenStream) -> (result: bool)
    ensures
        result == is_parameter_list(token_seq(*tokens)),
{
    syn::parse::Parser::parse2(
        syn::punctuated::Punctuated::<syn::PatType, syn::token::Comma>::parse_terminated,
        tokens.clone(),
    ).is_ok()
}

/// `parse2` of syn, for `WhereClause`: succeeds where the tokens are a
/// `where` clause.
#[verifier::external_body]
pub(crate) fn parse_where(tokens: &TokenStream) -> (result: bool)
    ensures
        result == is_where_clause(token_seq(*tokens)),
{
    syn::parse2::<syn::WhereClause>(tokens.clone()).is_ok()
}

/// The token opens an angle bracket.
pub open spec fn is_open(tokens: Seq<Token>, at: int) -> bool {
    tokens[at] matches Token::Punct('<', _)
}

/// The token closes an angle bracket: a `>` that is not the head of an arrow `->`.
pub open spec fn is_close(tokens: Seq<Token>, at: int) -> bool {
    tokens[at] matches Token::Punct('>', _) && !(at > 0 && tokens[at - 1] == joint('-'))
}

/// The position of the `>` that closes the outermost of the angle brackets
/// that are open at a position, given how many are open there.
pub open spec fn closing(tokens: Seq<Token>, at: int, depth: nat) -> Option<int>
    decreases tokens.len() - at,
{
    if at < 0 || at >= tokens.len() {
        None
    } else if is_open(tokens, at) {
        closing(tokens, at + 1, depth + 1)
    } else if is_close(tokens, at) {
        if depth <= 1 {
            Some(at)
        } else {
            closing(tokens, at + 1, (depth - 1) as nat)
        }
    } else {
        closing(tokens, at + 1, depth)
    }
}

/// Where the generic parameters of an annotation end: behind the name, where
/// no `<` follows it; else behind the `>` that closes that `<`, if there is one.
pub open spec fn generics_end(tokens: Seq<Token>) -> Option<int> {
    if tokens.len() > 1 && is_open(tokens, 1) {
        match closing(tokens, 2, 1) {
            Some(at) => Some(at + 1),
            None => None,
        }
    } else {
        Some(1)
    }
}

/// The parts of an annotation whose name and generic parameters end at the
/// given position: the generic parameters, the constructor parameters, and
/// what follows them.
pub open spec fn parts(tokens: Seq<Token>, end: int) -> (Seq<Token>, Seq<Token>, Seq<Token>) {
    let generics = tokens.subrange(1, end);
    if end < tokens.len() && tokens[end] is Group && tokens[end]->Group_0
        == Delimiter::Parenthesis {
        (generics, tokens[end]->Group_1, tokens.subrange(end + 1, tokens.len() as int))
    } else {
        (generics, Seq::empty(), tokens.subrange(end, tokens.len() as int))
    }
}

/// The text of an identifier without the mark `r#` of a raw identifier.
pub open spec fn unraw(text: Seq<char>) -> Seq<char> {
    if text.len() >= 2 && text[0] == 'r' && text[1] == '#' {
        text.skip(2)
    } else {
        text
    }
}

/// Takes the mark of a raw identifier off an identifier's text.
pub fn strip_raw(text: &str) -> (plain: &str)
    ensures
        plain@ == unraw(text@),
{
    let len = text.unicode_len();
    if len >= 2 && text.get_char(0) == 'r' && text.get_char(1) == '#' {
        let plain = text.substring_char(2, len);
        assert(plain@ =~= text@.skip(2));
        plain
    } else {
        text
    }
}

/// What syn answers on the parts of an annotation.
pub ghost struct Answers {
    /// Whether the first token is an identifier that is no keyword.
    pub name: bool,
    /// The two forms of the generic parameters, where they are well formed.
    pub generics: Option<(Seq<Token>, Seq<Token>)>,
    /// Whether the constructor parameters are a list of `pattern: type` pairs.
    pub parameters: bool,
    /// Whether what follows is a `where` clause.
    pub where_clause: bool,
}

/// The two forms of the generic parameters: none where there are no
/// parameters, else what syn makes of them.
pub open spec fn split_generics(
    generics: Seq<Token>,
    answer: Option<(Seq<Token>, Seq<Token>)>,
) -> Option<(Seq<Token>, Seq<Token>)> {
    if generics.len() == 0 {
        Some((Seq::empty(), Seq::empty()))
    } else {
        answer
    }
}

/// What an outer annotation declares, given what syn answers on its parts,
/// or the first reason for which it is refused. A part that is not there is
/// not asked about.
pub open spec fn assemble_decl(tokens: Seq<Token>, answers: Answers) -> Result<
    StateDeclView,
    ErrorKind,
> {
    if tokens.len() == 0 || !(tokens[0] is Ident) {
        Err(ErrorKind::MissingName)
    } else if !answers.name {
        Err(ErrorKind::InvalidName)
    } else if !is_ident(unraw(tokens[0]->Ident_0)) {
        Err(ErrorKind::UnsupportedName)
    } else if generics_end(tokens) is None {
        Err(ErrorKind::UnclosedGenerics)
    } else {
        let (generics, constructor, rest) = parts(tokens, generics_end(tokens)->0);
        if split_generics(generics, answers.generics) is None {
            Err(ErrorKind::InvalidGenerics)
        } else if constructor.len() > 0 && !answers.parameters {
            Err(ErrorKind::InvalidParameters)
        } else if rest.len() > 0 && rest[0] != word("where") {
            Err(ErrorKind::UnexpectedToken)
        } else if rest.len() > 0 && !answers.where_clause {
            Err(ErrorKind::InvalidWhere)
        } else {
            let (impl_generics, type_generics) = split_generics(generics, answers.generics)->0;
            Ok(
                StateDeclView {
                    name: unraw(tokens[0]->Ident_0),
                    written: tokens.subrange(0, 1),
                    impl_generics,
                    type_generics,
                    where_clause: rest,
                    constructor,
                },
            )
        }
    }
}

/// What syn answers on the parts of the given annotation.
pub open spec fn answers_of(tokens: Seq<Token>) -> Answers {
    let (generics, constructor, rest) = parts(tokens, generics_end(tokens)->0);
    Answers {
        name: tokens.len() > 0 && tokens[0] is Ident && !is_keyword(tokens[0]->Ident_0),
        generics: generics_of(generics),
        parameters: is_parameter_list(constructor),
        where_clause: is_where_clause(rest),
    }
}

/// What an outer annotation declares, or the first reason for which it is
/// refused.
pub open spec fn parse_decl(tokens: Seq<Token>) -> Result<StateDeclView, ErrorKind> {
    assemble_decl(tokens, answers_of(tokens))
}

/// The tokens at whose place a refusal of an annotation is reported: the
/// part that is at fault, or the whole annotation where a part is missing.
pub open spec fn decl_anchor(tokens: Seq<Token>, kind: ErrorKind) -> Seq<Token> {
    match kind {
        ErrorKind::InvalidName => tokens.subrange(0, 1),
        ErrorKind::UnsupportedName => tokens.subrange(0, 1),
        ErrorKind::InvalidGenerics => parts(tokens, generics_end(tokens)->0).0,
        ErrorKind::InvalidParameters => parts(tokens, generics_end(tokens)->0).1,
        ErrorKind::UnexpectedToken => parts(tokens, generics_end(tokens)->0).2,
        ErrorKind::InvalidWhere => parts(tokens, generics_end(tokens)->0).2,
        _ => tokens,
    }
}

/// Tells whether a token that was read opens an angle bracket.
fn opens(tree: &Tree) -> (result: bool)
    ensures
        result == (tree@ matches Token::Punct('<', _)),
{
    match tree {
        Tree::Punct(ch, _) => *ch == '<',
        _ => false,
    }
}

/// Finds the `>` that closes the `<` behind the name.
fn find_closing(trees: &Vec<Tree>, Ghost(tokens): Ghost<Seq<Token>>) -> (result: Option<usize>)
    requires
        trees@.len() == tokens.len(),
        forall|i: int| 0 <= i < trees@.len() ==> (#[trigger] trees@[i])@ == tokens[i],
        tokens.len() > 1,
    ensures
        match result {
            Some(at) => closing(tokens, 2, 1) == Some(at as int) && 2 <= at < tokens.len(),
            None => closing(tokens, 2, 1) is None,
        },
{
    let mut at: usize = 2;
    let mut depth: usize = 1;
    while at < trees.len()
        invariant
            2 <= at,
            1 <= depth < at,
            trees@.len() == tokens.len(),
            forall|i: int| 0 <= i < trees@.len() ==> (#[trigger] trees@[i])@ == tokens[i],
            closing(tokens, 2, 1) == closing(tokens, at as int, depth as nat),
        decreases trees.len() - at,
    {
        assert(trees@[at as int]@ == tokens[at as int]);
        assert(trees@[at - 1]@ == tokens[at - 1]);
        if opens(&trees[at]) {
            depth += 1;
        } else {
            let closes = match &trees[at] {
                Tree::Punct(ch, _) => *ch == '>' && !(match &trees[at - 1] {
                    Tree::Punct(before, joined) => *before == '-' && *joined,
                    _ => false,
                }),
                _ => false,
            };
            assert(closes == is_close(tokens, at as int));
            if closes {
                if depth <= 1 {
                    return Some(at);
                }
                depth -= 1;
            }
        }
        at += 1;
    }
    None
}

/// The two forms of generic parameters as mathematical values.
pub open spec fn forms_view(forms: Option<(TokenStream, TokenStream)>) -> Option<
    (Seq<Token>, Seq<Token>),
> {
    match forms {
        Some((impl_generics, type_generics)) => Some(
            (token_seq(impl_generics), token_seq(type_generics)),
        ),
        None => None,
    }
}

/// Finds where the generic parameters of an annotation end.
fn find_end(trees: &Vec<Tree>, Ghost(tokens): Ghost<Seq<Token>>) -> (result: Option<usize>)
    requires
        trees@.len() == tokens.len(),
        forall|i: int| 0 <= i < trees@.len() ==> (#[trigger] trees@[i])@ == tokens[i],
        tokens.len() > 0,
    ensures
        match result {
            Some(end) => generics_end(tokens) == Some(end as int) && 1 <= end <= tokens.len(),
            None => generics_end(tokens) is None,
        },
{
    if trees.len() > 1 && opens(&trees[1]) {
        assert(trees@[1]@ == tokens[1]);
        match find_closing(trees, Ghost(tokens)) {
            Some(at) => Some(at + 1),
            None => None,
        }
    } else {
        assert(trees.len() > 1 ==> trees@[1]@ == tokens[1]);
        Some(1)
    }
}

/// Takes an annotation apart behind its name and generic parameters: the
/// generic parameters, the constructor parameters, and what follows them.
fn take_parts(input: &TokenStream, trees: &Vec<Tree>, end: usize) -> (result: (
    TokenStream,
    TokenStream,
    TokenStream,
))
    requires
        trees@.len() == token_seq(*input).len(),
        forall|i: int|
            0 <= i < trees@.len() ==> (#[trigger] trees@[i])@ == token_seq(*input)[i],
        1 <= end <= trees@.len(),
    ensures
        (token_seq(result.0), token_seq(result.1), token_seq(result.2)) == parts(
            token_seq(*input),
            end as int,
        ),
{
    let ghost tokens = token_seq(*input);
    let generics = slice(input, 1, end);
    let (constructor, rest_at) = if end < trees.len() {
        assert(trees@[end as int]@ == tokens[end as int]);
        match &trees[end] {
            Tree::Group(Delimiter::Parenthesis, list) => (crate::tokens::copy(list), end + 1),
            _ => (empty(), end),
        }
    } else {
        (empty(), end)
    };
    let rest = slice(input, rest_at, trees.len());
    (generics, constructor, rest)
}

impl StateDecl {
    /// Puts a declaration together from the arguments of the outer
    /// annotation and from what syn answers on their parts: on the name, on
    /// the generic parameters, on the constructor parameters and on the
    /// `where` clause. An error is reported at the place of the part that is
    /// at fault.
    pub fn assemble(
        input: &TokenStream,
        name_ok: bool,
        generics: Option<(TokenStream, TokenStream)>,
        parameters_ok: bool,
        where_ok: bool,
    ) -> (result: Result<StateDecl, Error>)
        ensures
            ({
                let answers = Answers {
                    name: name_ok,
                    generics: forms_view(generics),
                    parameters: parameters_ok,
                    where_clause: where_ok,
                };
                match result {
                    Ok(decl) => assemble_decl(token_seq(*input), answers) == Ok::<
                        StateDeclView,
                        ErrorKind,
                    >(decl@),
                    Err(error) => assemble_decl(token_seq(*input), answers) == Err::<
                        StateDeclView,
                        ErrorKind,
                    >(error.kind) && token_seq(error.anchor) == decl_anchor(
                        token_seq(*input),
                        error.kind,
                    ),
                }
            }),
    {
        let ghost tokens = token_seq(*input);
        let trees = read(input);
        if trees.len() == 0 {
            return Err(Error::new(ErrorKind::MissingName, input));
        }
        assert(trees@[0]@ == tokens[0]);
        let written = slice(input, 0, 1);
        let name = match &trees[0] {
            Tree::Ident(text) => {
                if !name_ok {
                    return Err(Error::new(ErrorKind::InvalidName, &written));
                }
                match Name::new(strip_raw(text.as_str())) {
                    Some(name) => name,
                    None => {
                        return Err(Error::new(ErrorKind::UnsupportedName, &written));
                    },
                }
            },
            _ => {
                return Err(Error::new(ErrorKind::MissingName, input));
            },
        };
        let end = match find_end(&trees, Ghost(tokens)) {
            Some(end) => end,
            None => {
                return Err(Error::new(ErrorKind::UnclosedGenerics, input));
            },
        };
        let (parameters, constructor, rest) = take_parts(input, &trees, end);
        let (impl_generics, type_generics) = if end == 1 {
            (empty(), empty())
        } else {
            match generics {
                Some(forms) => forms,
                None => {
                    return Err(Error::new(ErrorKind::InvalidGenerics, &parameters));
                },
            }
        };
        if read(&constructor).len() > 0 && !parameters_ok {
            return Err(Error::new(ErrorKind::InvalidParameters, &constructor));
        }
        let behind = read(&rest);
        if behind.len() > 0 {
            assert(behind@[0]@ == token_seq(rest)[0]);
            let is_where = match &behind[0] {
                Tree::Ident(text) => *text == String::from_str("where"),
                _ => false,
            };
            if !is_where {
                return Err(Error::new(ErrorKind::UnexpectedToken, &rest));
            }
            if !where_ok {
                return Err(Error::new(ErrorKind::InvalidWhere, &rest));
            }
        }
        Ok(
            StateDecl {
                name,
                written,
                impl_generics,
                type_generics,
                where_clause: rest,
                constructor,
            },
        )
    }

    /// Reads the arguments of the outer annotation: asks syn about their
    /// parts and puts the declaration together from the answers. An error is
    /// reported at the place of the part that is at fault.
    pub fn parse(input: &TokenStream) -> (result: Result<StateDecl, Error>)
        ensures
            match result {
                Ok(decl) => parse_decl(token_seq(*input)) == Ok::<StateDeclView, ErrorKind>(decl@),
                Err(error) => parse_decl(token_seq(*input)) == Err::<StateDeclView, ErrorKind>(
                    error.kind,
                ) && token_seq(error.anchor) == decl_anchor(token_seq(*input), error.kind),
            },
    {
        let ghost tokens = token_seq(*input);
        let trees = read(input);
        if trees.len() == 0 {
            return StateDecl::assemble(input, false, None, false, false);
        }
        let name_ok = parse_type_name(&slice(input, 0, 1));
        match find_end(&trees, Ghost(tokens)) {
            Some(end) => {
                let (written, constructor, rest) = take_parts(input, &trees, end);
                let generics = parse_generics(&written);
                let parameters_ok = parse_parameters(&constructor);
                let where_ok = parse_where(&rest);
                StateDecl::assemble(input, name_ok, generics, parameters_ok, where_ok)
            },
            None => StateDecl::assemble(input, name_ok, None, false, false),
        }
    }
}

} // verus!
