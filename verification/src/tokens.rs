//! Token streams as the engine sees them: a sequence of token trees, spans left aside.
//!
//! The streams themselves are proc_macro2's. Nothing is proved of them here: the
//! functions marked `external_body` below state what the calls into proc_macro2
//! and syn do to the sequence of tokens, and everything else in the crate is
//! proved from those statements.

use proc_macro2::{Spacing, TokenStream, TokenTree};
use vstd::prelude::*;
use vstd::string::StringExecFns;

verus! {

/// The four ways a group of tokens can be bracketed.
#[derive(Clone, Copy, Debug, PartialEq, Eq, Structural)]
pub enum Delimiter {
    Parenthesis,
    Brace,
    Bracket,
    /// No visible bracket: the group only keeps its tokens together.
    Invisible,
}

/// One token tree, as a mathematical value.
pub ghost enum Token {
    /// An identifier or keyword, by its text.
    Ident(Seq<char>),
    /// A punctuation character; the flag says that the next token follows it directly.
    Punct(char, bool),
    /// A literal, by its source text.
    Literal(Seq<char>),
    /// A bracketed group and what stands inside it.
    Group(Delimiter, Seq<Token>),
}

/// One token tree of a stream that was read, one level deep: a group keeps its
/// content as a stream.
pub enum Tree {
    Ident(String),
    Punct(char, bool),
    Literal(String),
    Group(Delimiter, TokenStream),
}

impl View for Tree {
    type V = Token;

    open spec fn view(&self) -> Token {
        match *self {
            Tree::Ident(text) => Token::Ident(text@),
            Tree::Punct(ch, joint) => Token::Punct(ch, joint),
            Tree::Literal(text) => Token::Literal(text@),
            Tree::Group(delimiter, stream) => Token::Group(delimiter, token_seq(stream)),
        }
    }
}

/// A keyword or identifier token.
pub open spec fn word(text: &str) -> Token {
    Token::Ident(text@)
}

/// A punctuation token that stands alone.
pub open spec fn alone(ch: char) -> Token {
    Token::Punct(ch, false)
}

/// A punctuation token that the next token follows directly.
pub open spec fn joint(ch: char) -> Token {
    Token::Punct(ch, true)
}

/// Whether unicode-ident's `is_xid_start` takes a character for one that
/// may start an identifier.
pub uninterp spec fn xid_start(c: char) -> bool;

/// Whether unicode-ident's `is_xid_continue` takes a character for one that
/// may stand inside an identifier.
pub uninterp spec fn xid_continue(c: char) -> bool;

/// An ASCII letter.
pub open spec fn is_letter(c: char) -> bool {
    ('a' <= c && c <= 'z') || ('A' <= c && c <= 'Z')
}

/// A character that may start an identifier: `_`, an ASCII letter, or what
/// unicode-ident takes for such a character. Every such character may also
/// follow another, so that an identifier can be made of a prefix and a name.
pub open spec fn is_ident_start(c: char) -> bool {
    c == '_' || is_letter(c) || (xid_start(c) && xid_continue(c))
}

/// A character that may follow the first one in an identifier: `_`, an
/// ASCII letter or digit, or what unicode-ident takes for such a character.
pub open spec fn is_ident_continue(c: char) -> bool {
    c == '_' || is_letter(c) || ('0' <= c && c <= '9') || xid_continue(c)
}

/// The identifiers that this crate creates: a character that may start one,
/// and behind it characters that may follow.
pub open spec fn is_ident(text: Seq<char>) -> bool {
    &&& text.len() > 0
    &&& is_ident_start(text[0])
    &&& forall|i: int| 0 < i < text.len() ==> is_ident_continue(#[trigger] text[i])
}

/// The punctuation characters of the language.
pub open spec fn is_punct(c: char) -> bool {
    c == '!' || c == '#' || c == '$' || c == '%' || c == '&' || c == '\'' || c == '*' || c == '+'
        || c == ',' || c == '-' || c == '.' || c == '/' || c == ':' || c == ';' || c == '<'
        || c == '=' || c == '>' || c == '?' || c == '@' || c == '^' || c == '|' || c == '~'
}

/// The decimal digit of a value below ten.
pub open spec fn digit(d: nat) -> char {
    if d == 0 {
        '0'
    } else if d == 1 {
        '1'
    } else if d == 2 {
        '2'
    } else if d == 3 {
        '3'
    } else if d == 4 {
        '4'
    } else if d == 5 {
        '5'
    } else if d == 6 {
        '6'
    } else if d == 7 {
        '7'
    } else if d == 8 {
        '8'
    } else {
        '9'
    }
}

/// A number written in decimal, without sign or leading zero.
pub open spec fn decimal(n: nat) -> Seq<char>
    decreases n,
{
    if n < 10 {
        seq![digit(n)]
    } else {
        decimal(n / 10).push(digit(n % 10))
    }
}

#[verifier::external_type_specification]
#[verifier::external_body]
pub struct ExTokenStream(TokenStream);

/// The token trees that a stream holds, in order.
pub uninterp spec fn token_seq(stream: TokenStream) -> Seq<Token>;

/// The source text of the string literal that proc_macro2's `Literal::string`
/// makes of a text: the text between quotes, with its escapes.
pub uninterp spec fn string_literal(text: Seq<char>) -> Seq<char>;

/// The invocation `::core::compile_error! { "message" }`, given the source text
/// of its string literal.
pub open spec fn compile_error_tokens(literal: Seq<char>) -> Seq<Token> {
    seq![
        joint(':'),
        alone(':'),
        word("core"),
        joint(':'),
        alone(':'),
        word("compile_error"),
        alone('!'),
        Token::Group(Delimiter::Brace, seq![Token::Literal(literal)]),
    ]
}

/// `is_xid_start` of unicode-ident: whether a character may start an identifier.
#[verifier::external_body]
pub(crate) fn starts_identifier(c: char) -> (result: bool)
    ensures
        result == xid_start(c),
{
    unicode_ident::is_xid_start(c)
}

/// `is_xid_continue` of unicode-ident: whether a character may stand inside
/// an identifier.
#[verifier::external_body]
pub(crate) fn continues_identifier(c: char) -> (result: bool)
    ensures
        result == xid_continue(c),
{
    unicode_ident::is_xid_continue(c)
}

/// `TokenStream::new` of proc_macro2: a stream that holds no token.
#[verifier::external_body]
pub(crate) fn empty() -> (stream: TokenStream)
    ensures
        token_seq(stream) == Seq::<Token>::empty(),
{
    TokenStream::new()
}

/// `Ident::new` of proc_macro2, with `Span::mixed_site`, and `extend`: the
/// identifier is added behind the tokens of the stream. `Ident::new` panics on
/// a text that is no identifier, so only the identifiers of `is_ident` are let
/// in: those that begin with `_` or with a character that unicode-ident's
/// `is_xid_start` accepts, and go on with characters that its
/// `is_xid_continue` accepts, as ASCII letters, digits and `_` are.
#[verifier::external_body]
pub(crate) fn push_ident(stream: &mut TokenStream, name: &str)
    requires
        is_ident(name@),
    ensures
        token_seq(*final(stream)) == token_seq(*old(stream)).push(Token::Ident(name@)),
{
    stream.extend([proc_macro2::Ident::new(name, proc_macro2::Span::mixed_site())]);
}

/// `Punct::new` of proc_macro2, with `Span::mixed_site`, and `extend`: the
/// punctuation character is added behind the tokens of the stream. `Punct::new`
/// panics on any other character than those of `is_punct`.
#[verifier::external_body]
pub(crate) fn push_punct(stream: &mut TokenStream, ch: char, joint: bool)
    requires
        is_punct(ch),
    ensures
        token_seq(*final(stream)) == token_seq(*old(stream)).push(Token::Punct(ch, joint)),
{
    let spacing = if joint { Spacing::Joint } else { Spacing::Alone };
    let mut punct = proc_macro2::Punct::new(ch, spacing);
    punct.set_span(proc_macro2::Span::mixed_site());
    stream.extend([punct]);
}

/// `Literal::usize_unsuffixed` of proc_macro2, with `Span::mixed_site`, and
/// `extend`: the number, written in decimal without a suffix, is added behind
/// the tokens of the stream.
#[verifier::external_body]
pub(crate) fn push_index(stream: &mut TokenStream, index: usize)
    ensures
        token_seq(*final(stream)) == token_seq(*old(stream)).push(
            Token::Literal(decimal(index as nat)),
        ),
{
    let mut literal = proc_macro2::Literal::usize_unsuffixed(index);
    literal.set_span(proc_macro2::Span::mixed_site());
    stream.extend([literal]);
}

/// `Group::new` of proc_macro2, with `Span::mixed_site`, and `extend`: a group
/// with the given bracket around the given tokens is added behind the tokens of
/// the stream.
#[verifier::external_body]
pub(crate) fn push_group(stream: &mut TokenStream, delimiter: Delimiter, content: TokenStream)
    ensures
        token_seq(*final(stream)) == token_seq(*old(stream)).push(
            Token::Group(delimiter, token_seq(content)),
        ),
{
    let bracket = match delimiter {
        Delimiter::Parenthesis => proc_macro2::Delimiter::Parenthesis,
        Delimiter::Brace => proc_macro2::Delimiter::Brace,
        Delimiter::Bracket => proc_macro2::Delimiter::Bracket,
        Delimiter::Invisible => proc_macro2::Delimiter::None,
    };
    let mut group = proc_macro2::Group::new(bracket, content);
    group.set_span(proc_macro2::Span::mixed_site());
    stream.extend([group]);
}

/// `extend` of proc_macro2's `TokenStream` with the token trees of another
/// stream: they are added, in their order and with their own spans, behind the
/// tokens of the first.
#[verifier::external_body]
pub(crate) fn push_stream(stream: &mut TokenStream, other: &TokenStream)
    ensures
        token_seq(*final(stream)) == token_seq(*old(stream)) + token_seq(*other),
{
    stream.extend(other.clone());
}

/// `into_iter` of proc_macro2's `TokenStream`: the token trees of the stream in
/// their order, each as the plain value that stands for it. An identifier and a
/// literal are given by their text (`to_string`), a punctuation character with
/// its spacing, a group with its bracket and the stream inside it.
#[verifier::external_body]
pub(crate) fn read(stream: &TokenStream) -> (trees: Vec<Tree>)
    ensures
        trees@.len() == token_seq(*stream).len(),
        forall|i: int| 0 <= i < trees@.len() ==> (#[trigger] trees@[i])@ == token_seq(*stream)[i],
{
    stream.clone().into_iter().map(|tree| match tree {
        TokenTree::Ident(ident) => Tree::Ident(ident.to_string()),
        TokenTree::Punct(punct) => Tree::Punct(punct.as_char(), punct.spacing() == Spacing::Joint),
        TokenTree::Literal(literal) => Tree::Literal(literal.to_string()),
        TokenTree::Group(group) => Tree::Group(
            match group.delimiter() {
                proc_macro2::Delimiter::Parenthesis => Delimiter::Parenthesis,
                proc_macro2::Delimiter::Brace => Delimiter::Brace,
                proc_macro2::Delimiter::Bracket => Delimiter::Bracket,
                proc_macro2::Delimiter::None => Delimiter::Invisible,
            },
            group.stream(),
        ),
    }).collect()
}

/// `Error::new_spanned` and `Error::to_compile_error` of syn: an invocation of
/// `compile_error!` with the message, which the compiler reports at the place
/// of the anchor's tokens.
#[verifier::external_body]
pub(crate) fn diagnostic(anchor: &TokenStream, message: &str) -> (stream: TokenStream)
    ensures
        token_seq(stream) == compile_error_tokens(string_literal(message@)),
{
    syn::Error::new_spanned(anchor, message).to_compile_error()
}

/// `into_iter` and `collect` of proc_macro2's `TokenStream`: the token tree
/// at one position of the stream, in a stream of its own.
#[verifier::external_body]
pub(crate) fn token_at(stream: &TokenStream, index: usize) -> (token: TokenStream)
    requires
        index < token_seq(*stream).len(),
    ensures
        token_seq(token) == seq![token_seq(*stream)[index as int]],
{
    stream.clone().into_iter().skip(index).take(1).collect()
}

/// The tokens of a stream from one position up to another, in a stream of
/// their own.
pub fn slice(stream: &TokenStream, from: usize, to: usize) -> (part: TokenStream)
    requires
        from <= to <= token_seq(*stream).len(),
    ensures
        token_seq(part) == token_seq(*stream).subrange(from as int, to as int),
{
    let mut part = empty();
    let mut at = from;
    assert(token_seq(*stream).subrange(from as int, from as int) =~= Seq::empty());
    while at < to
        invariant
            from <= at <= to <= token_seq(*stream).len(),
            token_seq(part) == token_seq(*stream).subrange(from as int, at as int),
        decreases to - at,
    {
        let token = token_at(stream, at);
        push_stream(&mut part, &token);
        assert(token_seq(part) =~= token_seq(*stream).subrange(from as int, at + 1));
        at += 1;
    }
    part
}

/// A stream with the same tokens as the given one.
pub fn copy(stream: &TokenStream) -> (result: TokenStream)
    ensures
        token_seq(result) == token_seq(*stream),
{
    let mut result = empty();
    push_stream(&mut result, stream);
    assert(Seq::<Token>::empty() + token_seq(*stream) =~= token_seq(*stream));
    result
}

/// Adds the path separator `::`.
pub(crate) fn push_colons(stream: &mut TokenStream)
    ensures
        token_seq(*final(stream)) == token_seq(*old(stream)).push(joint(':')).push(alone(':')),
{
    push_punct(stream, ':', true);
    push_punct(stream, ':', false);
}

/// The text of a digit.
fn digit_text(d: usize) -> (text: &'static str)
    requires
        d < 10,
    ensures
        text@ == seq![digit(d as nat)],
{
    proof {
        reveal_strlit("0");
        reveal_strlit("1");
        reveal_strlit("2");
        reveal_strlit("3");
        reveal_strlit("4");
        reveal_strlit("5");
        reveal_strlit("6");
        reveal_strlit("7");
        reveal_strlit("8");
        reveal_strlit("9");
    }
    let text = if d == 0 {
        "0"
    } else if d == 1 {
        "1"
    } else if d == 2 {
        "2"
    } else if d == 3 {
        "3"
    } else if d == 4 {
        "4"
    } else if d == 5 {
        "5"
    } else if d == 6 {
        "6"
    } else if d == 7 {
        "7"
    } else if d == 8 {
        "8"
    } else {
        "9"
    };
    assert(text@ =~= seq![digit(d as nat)]);
    text
}

/// Writes a number in decimal.
pub fn decimal_text(n: usize) -> (text: String)
    ensures
        text@ == decimal(n as nat),
    decreases n,
{
    if n < 10 {
        String::from_str(digit_text(n))
    } else {
        let mut text = decimal_text(n / 10);
        text.append(digit_text(n % 10));
        assert(text@ =~= decimal(n as nat));
        text
    }
}

/// Every character of a decimal number may stand inside an identifier.
pub proof fn lemma_decimal_continues(n: nat)
    ensures
        decimal(n).len() > 0,
        forall|i: int| 0 <= i < decimal(n).len() ==> is_ident_continue(#[trigger] decimal(n)[i]),
    decreases n,
{
    if n >= 10 {
        lemma_decimal_continues(n / 10);
    }
}

/// Tells whether a text is an identifier that this crate can create.
pub fn is_identifier(text: &str) -> (result: bool)
    ensures
        result == is_ident(text@),
{
    let len = text.unicode_len();
    if len == 0 {
        return false;
    }
    let first = text.get_char(0);
    if !(first == '_' || ('a' <= first && first <= 'z') || ('A' <= first && first <= 'Z') || (
    starts_identifier(first) && continues_identifier(first))) {
        return false;
    }
    let mut i: usize = 1;
    while i < len
        invariant
            1 <= i <= len,
            len == text@.len(),
            forall|j: int| 0 < j < i ==> is_ident_continue(#[trigger] text@[j]),
        decreases len - i,
    {
        let c = text.get_char(i);
        if !(c == '_' || ('a' <= c && c <= 'z') || ('A' <= c && c <= 'Z') || ('0' <= c && c
            <= '9') || continues_identifier(c)) {
            return false;
        }
        i += 1;
    }
    true
}

/// The fixed words of the emitted code are identifiers.
pub proof fn lemma_words()
    ensures
        is_ident("let"@),
        is_ident("ref"@),
        is_ident("mut"@),
        is_ident("if"@),
        is_ident("__tmp"@),
        is_ident("is_none"@),
        is_ident("as_mut"@),
        is_ident("unwrap"@),
        is_ident("core"@),
        is_ident("option"@),
        is_ident("Option"@),
        is_ident("Some"@),
        is_ident("None"@),
        is_ident("Default"@),
        is_ident("default"@),
        is_ident("struct"@),
        is_ident("repr"@),
        is_ident("transparent"@),
        is_ident("non_exhaustive"@),
        is_ident("const"@),
        is_ident("_"@),
        is_ident("impl"@),
        is_ident("fmt"@),
        is_ident("Debug"@),
        is_ident("for"@),
        is_ident("fn"@),
        is_ident("self"@),
        is_ident("f"@),
        is_ident("Formatter"@),
        is_ident("Result"@),
        is_ident("debug_struct"@),
        is_ident("stringify"@),
        is_ident("finish_non_exhaustive"@),
        is_ident("pub"@),
        is_ident("new"@),
        is_ident("Self"@),
{
    reveal_strlit("let");
    reveal_strlit("ref");
    reveal_strlit("mut");
    reveal_strlit("if");
    reveal_strlit("__tmp");
    reveal_strlit("is_none");
    reveal_strlit("as_mut");
    reveal_strlit("unwrap");
    reveal_strlit("core");
    reveal_strlit("option");
    reveal_strlit("Option");
    reveal_strlit("Some");
    reveal_strlit("None");
    reveal_strlit("Default");
    reveal_strlit("default");
    reveal_strlit("struct");
    reveal_strlit("repr");
    reveal_strlit("transparent");
    reveal_strlit("non_exhaustive");
    reveal_strlit("const");
    reveal_strlit("_");
    reveal_strlit("impl");
    reveal_strlit("fmt");
    reveal_strlit("Debug");
    reveal_strlit("for");
    reveal_strlit("fn");
    reveal_strlit("self");
    reveal_strlit("f");
    reveal_strlit("Formatter");
    reveal_strlit("Result");
    reveal_strlit("debug_struct");
    reveal_strlit("stringify");
    reveal_strlit("finish_non_exhaustive");
    reveal_strlit("pub");
    reveal_strlit("new");
    reveal_strlit("Self");
}

/// An identifier that this crate can create, valid by construction.
pub struct Name {
    text: String,
}

impl View for Name {
    type V = Seq<char>;

    closed spec fn view(&self) -> Seq<char> {
        self.text@
    }
}

impl Name {
    #[verifier::type_invariant]
    spec fn well_formed(self) -> bool {
        is_ident(self.text@)
    }

    /// The name with the given text, where the text is an identifier.
    pub fn new(text: &str) -> (name: Option<Name>)
        ensures
            name is Some <==> is_ident(text@),
            name is Some ==> name->0@ == text@,
    {
        if is_identifier(text) {
            Some(Name { text: String::from_str(text) })
        } else {
            None
        }
    }

    /// The text of the name.
    pub fn as_str(&self) -> (text: &str)
        ensures
            text@ == self@,
            is_ident(text@),
    {
        proof {
            use_type_invariant(self);
        }
        self.text.as_str()
    }

    /// A second name with the same text.
    pub fn duplicate(&self) -> (name: Name)
        ensures
            name@ == self@,
    {
        proof {
            use_type_invariant(self);
        }
        Name { text: self.text.clone() }
    }

    /// The name followed by a number in decimal.
    pub fn numbered(&self, n: usize) -> (name: Name)
        ensures
            name@ == self@ + decimal(n as nat),
    {
        proof {
            use_type_invariant(self);
            lemma_decimal_continues(n as nat);
        }
        let mut text = self.text.clone();
        let digits = decimal_text(n);
        text.append(digits.as_str());
        Name { text }
    }

    /// The name behind two underscores.
    pub fn hidden(&self) -> (name: Name)
        ensures
            name@ == "__"@ + self@,
    {
        proof {
            use_type_invariant(self);
            reveal_strlit("__");
        }
        let mut text = String::from_str("__");
        text.append(self.text.as_str());
        Name { text }
    }

    /// Adds the name to a stream as an identifier.
    pub fn push_to(&self, stream: &mut TokenStream)
        ensures
            token_seq(*final(stream)) == token_seq(*old(stream)).push(Token::Ident(self@)),
    {
        push_ident(stream, self.as_str());
    }
}

} // verus!
