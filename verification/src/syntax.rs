//! The parts of a function body that the engine reads.
//!
//! The engine does not parse the host language. Whoever holds the syntax tree
//! hands over the blocks and statements of the body, and for each `let`
//! statement the plain facts below; the pieces that the engine only carries
//! along (pattern, type, initializer) stay token streams.

use crate::tokens::{token_seq, Token};
use proc_macro2::TokenStream;
use vstd::prelude::*;

verus! {

/// One attribute on a statement.
pub struct Attribute {
    /// Written `#[...]`, not `#![...]`.
    pub outer: bool,
    /// The path of the attribute, where it is a single identifier without arguments.
    pub path: Option<String>,
    /// The tokens between the brackets, where the attribute has the form `path(...)`.
    pub list: Option<TokenStream>,
}

/// An attribute as a mathematical value.
pub ghost struct AttributeView {
    pub outer: bool,
    pub path: Option<Seq<char>>,
    pub list: Option<Seq<Token>>,
}

impl View for Attribute {
    type V = AttributeView;

    open spec fn view(&self) -> AttributeView {
        AttributeView {
            outer: self.outer,
            path: match self.path {
                Some(path) => Some(path@),
                None => None,
            },
            list: match self.list {
                Some(list) => Some(token_seq(list)),
                None => None,
            },
        }
    }
}

/// The initializer of a `let` statement.
pub struct LocalInit {
    /// The expression behind `=`.
    pub expr: TokenStream,
    /// The block behind `else`, where there is one.
    pub diverge: Option<TokenStream>,
}

/// An initializer as a mathematical value.
pub ghost struct LocalInitView {
    pub expr: Seq<Token>,
    pub diverge: Option<Seq<Token>>,
}

impl View for LocalInit {
    type V = LocalInitView;

    open spec fn view(&self) -> LocalInitView {
        LocalInitView {
            expr: token_seq(self.expr),
            diverge: match self.diverge {
                Some(diverge) => Some(token_seq(diverge)),
                None => None,
            },
        }
    }
}

/// One `let` statement.
pub struct Local {
    /// The attributes on the statement, in source order.
    pub attrs: Vec<Attribute>,
    /// The pattern as written, with its type annotation.
    pub pat: TokenStream,
    /// The names that the pattern binds, in source order.
    pub names: Vec<TokenStream>,
    /// The type that the statement is annotated with.
    pub ty: Option<TokenStream>,
    /// The initializer.
    pub init: Option<LocalInit>,
    /// The whole statement: diagnostics are reported at its place.
    pub tokens: TokenStream,
}

/// A `let` statement as a mathematical value.
pub ghost struct LocalView {
    pub attrs: Seq<AttributeView>,
    pub pat: Seq<Token>,
    pub names: Seq<Seq<Token>>,
    pub ty: Option<Seq<Token>>,
    pub init: Option<LocalInitView>,
    pub tokens: Seq<Token>,
}

impl View for Local {
    type V = LocalView;

    open spec fn view(&self) -> LocalView {
        LocalView {
            attrs: self.attrs@.map_values(|attr: Attribute| attr@),
            pat: token_seq(self.pat),
            names: self.names@.map_values(|name: TokenStream| token_seq(name)),
            ty: match self.ty {
                Some(ty) => Some(token_seq(ty)),
                None => None,
            },
            init: match self.init {
                Some(init) => Some(init@),
                None => None,
            },
            tokens: token_seq(self.tokens),
        }
    }
}

/// One statement of a block.
pub struct Stmt {
    /// The blocks nested in the statement, in source order: the body of a
    /// branch, of a loop or of a closure, a block that stands as an
    /// expression. A block inside one of these belongs to that block, and
    /// what stands inside an item inside the body belongs to the item.
    pub blocks: Vec<Block>,
    /// The blocks of the items nested in the statement, in source order: the
    /// body of a function that is defined inside the body. An item is no
    /// part of the function around it: the walk does not enter these.
    pub items: Vec<Block>,
    /// The statement itself, where it is a `let` statement.
    pub local: Option<Local>,
}

/// A block: its statements, in source order.
pub struct Block {
    pub stmts: Vec<Stmt>,
}

/// A statement as a mathematical value.
pub ghost struct StmtView {
    pub blocks: Seq<BlockView>,
    pub items: Seq<BlockView>,
    pub local: Option<LocalView>,
}

/// A block as a mathematical value.
pub ghost struct BlockView {
    pub stmts: Seq<StmtView>,
}

/// A block as a mathematical value.
pub open spec fn block_view(block: Block) -> BlockView
    decreases block,
{
    BlockView { stmts: stmts_view(block.stmts@) }
}

/// Statements as mathematical values.
pub open spec fn stmts_view(stmts: Seq<Stmt>) -> Seq<StmtView>
    decreases stmts,
{
    if stmts.len() == 0 {
        Seq::empty()
    } else {
        stmts_view(stmts.drop_last()).push(stmt_view(stmts.last()))
    }
}

/// A statement as a mathematical value.
pub open spec fn stmt_view(stmt: Stmt) -> StmtView
    decreases stmt,
{
    StmtView {
        blocks: blocks_view(stmt.blocks@),
        items: blocks_view(stmt.items@),
        local: match stmt.local {
            Some(local) => Some(local@),
            None => None,
        },
    }
}

/// Blocks as mathematical values.
pub open spec fn blocks_view(blocks: Seq<Block>) -> Seq<BlockView>
    decreases blocks,
{
    if blocks.len() == 0 {
        Seq::empty()
    } else {
        blocks_view(blocks.drop_last()).push(block_view(blocks.last()))
    }
}

impl View for Stmt {
    type V = StmtView;

    open spec fn view(&self) -> StmtView {
        stmt_view(*self)
    }
}

impl View for Block {
    type V = BlockView;

    open spec fn view(&self) -> BlockView {
        block_view(*self)
    }
}

/// The view of a list of statements has the view of each, at its position.
pub proof fn lemma_stmts_view(stmts: Seq<Stmt>)
    ensures
        stmts_view(stmts).len() == stmts.len(),
        forall|i: int| 0 <= i < stmts.len() ==> stmts_view(stmts)[i] == (#[trigger] stmts[i])@,
    decreases stmts.len(),
{
    if stmts.len() > 0 {
        lemma_stmts_view(stmts.drop_last());
        assert forall|i: int| 0 <= i < stmts.len() implies stmts_view(stmts)[i] == (
        #[trigger] stmts[i])@ by {
            if i < stmts.len() - 1 {
                assert(stmts.drop_last()[i] == stmts[i]);
            }
        }
    }
}

/// The view of a list of blocks has the view of each, at its position.
pub proof fn lemma_blocks_view(blocks: Seq<Block>)
    ensures
        blocks_view(blocks).len() == blocks.len(),
        forall|i: int| 0 <= i < blocks.len() ==> blocks_view(blocks)[i] == (#[trigger] blocks[i])@,
    decreases blocks.len(),
{
    if blocks.len() > 0 {
        lemma_blocks_view(blocks.drop_last());
        assert forall|i: int| 0 <= i < blocks.len() implies blocks_view(blocks)[i] == (
        #[trigger] blocks[i])@ by {
            if i < blocks.len() - 1 {
                assert(blocks.drop_last()[i] == blocks[i]);
            }
        }
    }
}

} // verus!
