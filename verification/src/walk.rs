//! The walk over a function body: one depth-first traversal that rewrites
//! the tagged declarations of every block and commits their slots.

use crate::retained_let::{
    chain_binding, chain_index, composite, deeper, direct_read, direct_slot, finish_state,
    head_of, keeps_slots, next_depth, pattern_of, pending, retained_of, rewrite_of,
    ExpanderView, RetainedLetExpander, RetainedLetView, Rewrite, RewriteView,
};
use crate::state::{State, StateProvidedView, StateView};
use crate::syntax::{
    lemma_blocks_view, lemma_stmts_view, Block, BlockView, LocalView, StmtView,
};
use crate::tokens::{decimal, token_seq, Name, Token};
use proc_macro2::TokenStream;
use vstd::prelude::*;

verus! {

/// What a walk decides for the statements and blocks that it passes.
pub struct Plan {
    /// What becomes of each statement, in the order in which the walk leaves
    /// the statements: a statement comes behind the statements of the blocks
    /// nested in it.
    pub rewrites: Vec<Rewrite>,
    /// The statement to put at the head of each block, where the block has
    /// lazy declarations, in the order in which the walk leaves the blocks.
    pub heads: Vec<Option<TokenStream>>,
}

/// A plan as a mathematical value.
pub ghost struct PlanView {
    pub rewrites: Seq<RewriteView>,
    pub heads: Seq<Option<Seq<Token>>>,
}

/// The head of a block as a mathematical value.
pub open spec fn head_view(head: Option<TokenStream>) -> Option<Seq<Token>> {
    match head {
        Some(head) => Some(token_seq(head)),
        None => None,
    }
}

impl View for Plan {
    type V = PlanView;

    open spec fn view(&self) -> PlanView {
        PlanView {
            rewrites: self.rewrites@.map_values(|rewrite: Rewrite| rewrite@),
            heads: self.heads@.map_values(|head: Option<TokenStream>| head_view(head)),
        }
    }
}

impl Plan {
    /// A plan for nothing.
    pub fn new() -> (plan: Plan)
        ensures
            plan@ == (PlanView { rewrites: Seq::empty(), heads: Seq::empty() }),
    {
        let plan = Plan { rewrites: Vec::new(), heads: Vec::new() };
        assert(plan@.rewrites =~= Seq::empty());
        assert(plan@.heads =~= Seq::empty());
        plan
    }

    /// Adds what becomes of a statement.
    fn push_rewrite(&mut self, rewrite: Rewrite)
        ensures
            final(self)@ == (PlanView {
                rewrites: old(self)@.rewrites.push(rewrite@),
                ..old(self)@
            }),
    {
        self.rewrites.push(rewrite);
        assert(self@.rewrites =~= old(self)@.rewrites.push(rewrite@));
    }

    /// Adds the head of a block.
    fn push_head(&mut self, head: Option<TokenStream>)
        ensures
            final(self)@ == (PlanView {
                heads: old(self)@.heads.push(head_view(head)),
                ..old(self)@
            }),
    {
        self.heads.push(head);
        assert(self@.heads =~= old(self)@.heads.push(head_view(head)));
    }
}

/// How far a walk has come: what it has decided, and the record as it stands.
pub ghost struct Walked {
    pub plan: PlanView,
    pub state: StateView,
}

/// The rewriting of a block at its beginning: no lazy declaration met, no
/// place reserved.
pub open spec fn begun(name: Seq<char>, depth: nat) -> ExpanderView {
    ExpanderView { state_arg: name, depth, stack: Seq::empty(), slot: None }
}

/// The walk over one block at the given depth: over its statements in
/// source order, and then the end of the block, where the composite slot of
/// its lazy declarations gets its type.
pub open spec fn walk_block(name: Seq<char>, depth: nat, before: Walked, block: BlockView) -> Walked
    decreases block,
{
    let (after, expander) = walk_stmts(before, begun(name, depth), block.stmts);
    Walked {
        plan: PlanView {
            heads: after.plan.heads.push(head_of(expander, after.state)),
            ..after.plan
        },
        state: finish_state(expander, after.state),
    }
}

/// The walk over statements of one block: for each statement, first over
/// the blocks nested in it, one level deeper, then the statement itself.
pub open spec fn walk_stmts(before: Walked, expander: ExpanderView, stmts: Seq<StmtView>) -> (
    Walked,
    ExpanderView,
)
    decreases stmts,
{
    if stmts.len() == 0 {
        (before, expander)
    } else {
        let (earlier, met) = walk_stmts(before, expander, stmts.drop_last());
        walk_stmt(earlier, met, stmts.last())
    }
}

/// The walk over one statement.
pub open spec fn walk_stmt(before: Walked, expander: ExpanderView, stmt: StmtView) -> (
    Walked,
    ExpanderView,
)
    decreases stmt,
{
    let inner = walk_blocks(expander.state_arg, next_depth(expander.depth), before, stmt.blocks);
    let rewritten = rewrite_of(expander, inner.state, stmt.local);
    (
        Walked {
            plan: PlanView {
                rewrites: inner.plan.rewrites.push(rewritten.rewrite),
                ..inner.plan
            },
            state: rewritten.state,
        },
        rewritten.expander,
    )
}

/// The blocks of the items nested in a statement are no part of the walk:
/// whatever they hold, tagged declarations too, the walk over the statement
/// decides and commits the same.
pub proof fn lemma_items_are_inert(
    before: Walked,
    expander: ExpanderView,
    stmt: StmtView,
    items: Seq<BlockView>,
)
    ensures
        walk_stmt(before, expander, StmtView { items, ..stmt }) == walk_stmt(
            before,
            expander,
            stmt,
        ),
{
}

/// The walk over the blocks nested in one statement, in source order.
pub open spec fn walk_blocks(
    name: Seq<char>,
    depth: nat,
    before: Walked,
    blocks: Seq<BlockView>,
) -> Walked
    decreases blocks,
{
    if blocks.len() == 0 {
        before
    } else {
        walk_block(name, depth, walk_blocks(name, depth, before, blocks.drop_last()), blocks.last())
    }
}

impl RetainedLetExpander {
    /// Walks over a block at the given depth. What becomes of its statements
    /// and of the blocks nested in it is added to the plan, and the slots of
    /// its declarations to the record.
    pub fn expand(state_arg: &Name, depth: usize, state: &mut State, block: &Block, plan: &mut Plan)
        ensures
            (Walked { plan: final(plan)@, state: final(state)@ }) == walk_block(
                state_arg@,
                depth as nat,
                Walked { plan: old(plan)@, state: old(state)@ },
                block@,
            ),
        decreases block,
    {
        let ghost name = state_arg@;
        let ghost before = Walked { plan: plan@, state: state@ };
        let ghost stmts = block@.stmts;
        proof {
            lemma_stmts_view(block.stmts@);
            assert(stmts.take(0) =~= Seq::empty());
        }
        let mut this = RetainedLetExpander::new(state_arg.duplicate(), depth);
        let mut i: usize = 0;
        while i < block.stmts.len()
            invariant
                i <= block.stmts.len(),
                stmts == block@.stmts,
                stmts.len() == block.stmts.len(),
                forall|k: int|
                    0 <= k < block.stmts.len() ==> stmts[k] == (#[trigger] block.stmts[k])@,
                name == state_arg@,
                this@.state_arg == name,
                this@.depth == depth,
                (Walked { plan: plan@, state: state@ }, this@) == walk_stmts(
                    before,
                    begun(name, depth as nat),
                    stmts.take(i as int),
                ),
            decreases block.stmts.len() - i,
        {
            let stmt = &block.stmts[i];
            let ghost earlier = Walked { plan: plan@, state: state@ };
            let ghost met = this@;
            let ghost blocks = stmt@.blocks;
            proof {
                lemma_blocks_view(stmt.blocks@);
                assert(blocks.take(0) =~= Seq::empty());
                assert(stmts.take(i + 1).drop_last() =~= stmts.take(i as int));
                assert(stmts.take(i + 1).last() == stmt@);
            }
            let mut j: usize = 0;
            while j < stmt.blocks.len()
                invariant
                    j <= stmt.blocks.len(),
                    blocks == stmt@.blocks,
                    blocks.len() == stmt.blocks.len(),
                    forall|k: int|
                        0 <= k < stmt.blocks.len() ==> blocks[k] == (#[trigger] stmt.blocks[k])@,
                    name == state_arg@,
                    i < block.stmts.len(),
                    *stmt == block.stmts[i as int],
                    (Walked { plan: plan@, state: state@ }) == walk_blocks(
                        name,
                        next_depth(depth as nat),
                        earlier,
                        blocks.take(j as int),
                    ),
                decreases stmt.blocks.len() - j,
            {
                proof {
                    assert(blocks.take(j + 1).drop_last() =~= blocks.take(j as int));
                    assert(blocks.take(j + 1).last() == stmt.blocks[j as int]@);
                }
                RetainedLetExpander::expand(state_arg, deeper(depth), state, &stmt.blocks[j], plan);
                j += 1;
            }
            assert(blocks.take(j as int) =~= blocks);
            let rewrite = match &stmt.local {
                Some(local) => this.rewrite(local, state),
                None => Rewrite::Keep,
            };
            plan.push_rewrite(rewrite);
            assert(walk_stmt(earlier, met, stmt@) == (
                Walked { plan: plan@, state: state@ },
                this@,
            ));
            i += 1;
        }
        assert(stmts.take(i as int) =~= stmts);
        let head = this.finish(state);
        plan.push_head(head);
    }
}

/// The number of statements in a block and in the blocks nested in it.
pub open spec fn count_stmts(block: BlockView) -> nat
    decreases block,
{
    count_stmts_of(block.stmts)
}

/// The number of statements among the given ones and in the blocks nested in them.
pub open spec fn count_stmts_of(stmts: Seq<StmtView>) -> nat
    decreases stmts,
{
    if stmts.len() == 0 {
        0
    } else {
        count_stmts_of(stmts.drop_last()) + count_stmts_in(stmts.last().blocks) + 1
    }
}

/// The number of statements in the given blocks.
pub open spec fn count_stmts_in(blocks: Seq<BlockView>) -> nat
    decreases blocks,
{
    if blocks.len() == 0 {
        0
    } else {
        count_stmts_in(blocks.drop_last()) + count_stmts(blocks.last())
    }
}

/// The number of blocks: a block itself and the blocks nested in it.
pub open spec fn count_blocks(block: BlockView) -> nat
    decreases block,
{
    count_blocks_of(block.stmts) + 1
}

/// The number of blocks nested in the given statements.
pub open spec fn count_blocks_of(stmts: Seq<StmtView>) -> nat
    decreases stmts,
{
    if stmts.len() == 0 {
        0
    } else {
        count_blocks_of(stmts.drop_last()) + count_blocks_in(stmts.last().blocks)
    }
}

/// The number of blocks among the given ones and nested in them.
pub open spec fn count_blocks_in(blocks: Seq<BlockView>) -> nat
    decreases blocks,
{
    if blocks.len() == 0 {
        0
    } else {
        count_blocks_in(blocks.drop_last()) + count_blocks(blocks.last())
    }
}

/// The later walk has decided everything that the earlier one had, and its
/// record has every slot and every constructor parameter of the earlier
/// one, each at its position and as it was.
pub open spec fn extends(before: Walked, after: Walked) -> bool {
    &&& keeps_slots(before.state, after.state)
    &&& before.plan.rewrites.len() <= after.plan.rewrites.len()
    &&& after.plan.rewrites.take(before.plan.rewrites.len() as int) =~= before.plan.rewrites
    &&& before.plan.heads.len() <= after.plan.heads.len()
    &&& after.plan.heads.take(before.plan.heads.len() as int) =~= before.plan.heads
}

/// The block that is being walked has its place in the record: where it has
/// met a lazy declaration, a position is reserved for its chain, not before
/// the given one, and the record holds the place there.
pub open spec fn placed(expander: ExpanderView, base: nat, state: StateView) -> bool {
    &&& expander.slot is None <==> expander.stack.len() == 0
    &&& expander.slot matches Some(slot) ==> base <= slot < state.fields.len()
        && state.fields[slot as int] == pending()
}

/// What holds from a first walk to a second and from the second to a third
/// holds from the first to the third.
pub proof fn lemma_extends_transitive(first: Walked, second: Walked, third: Walked)
    requires
        extends(first, second),
        extends(second, third),
    ensures
        extends(first, third),
{
    let fields = first.state.fields.len() as int;
    assert(third.state.fields.take(fields) =~= third.state.fields.take(
        second.state.fields.len() as int,
    ).take(fields));
    let new_args = first.state.new_args.len() as int;
    assert(third.state.new_args.take(new_args) =~= third.state.new_args.take(
        second.state.new_args.len() as int,
    ).take(new_args));
    let rewrites = first.plan.rewrites.len() as int;
    assert(third.plan.rewrites.take(rewrites) =~= third.plan.rewrites.take(
        second.plan.rewrites.len() as int,
    ).take(rewrites));
    let heads = first.plan.heads.len() as int;
    assert(third.plan.heads.take(heads) =~= third.plan.heads.take(
        second.plan.heads.len() as int,
    ).take(heads));
}

/// A walk that has come no further has decided and committed the same.
pub proof fn lemma_extends_itself(walked: Walked)
    ensures
        extends(walked, walked),
{
    assert(walked.state.fields.take(walked.state.fields.len() as int) =~= walked.state.fields);
    assert(walked.state.new_args.take(walked.state.new_args.len() as int)
        =~= walked.state.new_args);
    assert(walked.plan.rewrites.take(walked.plan.rewrites.len() as int)
        =~= walked.plan.rewrites);
    assert(walked.plan.heads.take(walked.plan.heads.len() as int) =~= walked.plan.heads);
}

/// A walk over a block adds to what was decided and committed before it, and
/// changes none of it: whatever slot the record had keeps its position and
/// its content. The walk decides once for each statement that it passes, and
/// once for each block.
pub proof fn lemma_walk_block(name: Seq<char>, depth: nat, before: Walked, block: BlockView)
    ensures
        extends(before, walk_block(name, depth, before, block)),
        walk_block(name, depth, before, block).plan.rewrites.len() == before.plan.rewrites.len()
            + count_stmts(block),
        walk_block(name, depth, before, block).plan.heads.len() == before.plan.heads.len()
            + count_blocks(block),
    decreases block, 0nat,
{
    let base = before.state.fields.len();
    lemma_walk_stmts(before, begun(name, depth), block.stmts, base);
    let (after, expander) = walk_stmts(before, begun(name, depth), block.stmts);
    let ended = walk_block(name, depth, before, block);
    assert(ended.plan.heads.take(before.plan.heads.len() as int) =~= before.plan.heads) by {
        assert(after.plan.heads.take(before.plan.heads.len() as int) =~= before.plan.heads);
    }
    assert(ended.state.fields.take(base as int) =~= before.state.fields) by {
        assert(after.state.fields.take(base as int) =~= before.state.fields);
    }
}

/// The same of a walk over statements of a block that has its place.
pub proof fn lemma_walk_stmts(
    before: Walked,
    expander: ExpanderView,
    stmts: Seq<StmtView>,
    base: nat,
)
    requires
        base <= before.state.fields.len(),
        placed(expander, base, before.state),
    ensures
        extends(before, walk_stmts(before, expander, stmts).0),
        placed(
            walk_stmts(before, expander, stmts).1,
            base,
            walk_stmts(before, expander, stmts).0.state,
        ),
        walk_stmts(before, expander, stmts).1.state_arg == expander.state_arg,
        walk_stmts(before, expander, stmts).1.depth == expander.depth,
        expander.slot is Some ==> walk_stmts(before, expander, stmts).1.slot == expander.slot,
        walk_stmts(before, expander, stmts).0.plan.rewrites.len() == before.plan.rewrites.len()
            + count_stmts_of(stmts),
        walk_stmts(before, expander, stmts).0.plan.heads.len() == before.plan.heads.len()
            + count_blocks_of(stmts),
    decreases stmts, 0nat,
{
    if stmts.len() == 0 {
        lemma_extends_itself(before);
    } else {
        lemma_walk_stmts(before, expander, stmts.drop_last(), base);
        let (earlier, met) = walk_stmts(before, expander, stmts.drop_last());
        lemma_walk_stmt(earlier, met, stmts.last(), base);
        lemma_extends_transitive(before, earlier, walk_stmt(earlier, met, stmts.last()).0);
    }
}

/// The same of a walk over one statement.
pub proof fn lemma_walk_stmt(before: Walked, expander: ExpanderView, stmt: StmtView, base: nat)
    requires
        base <= before.state.fields.len(),
        placed(expander, base, before.state),
    ensures
        extends(before, walk_stmt(before, expander, stmt).0),
        placed(
            walk_stmt(before, expander, stmt).1,
            base,
            walk_stmt(before, expander, stmt).0.state,
        ),
        walk_stmt(before, expander, stmt).1.state_arg == expander.state_arg,
        walk_stmt(before, expander, stmt).1.depth == expander.depth,
        expander.slot is Some ==> walk_stmt(before, expander, stmt).1.slot == expander.slot,
        walk_stmt(before, expander, stmt).0.plan.rewrites.len() == before.plan.rewrites.len()
            + count_stmts_in(stmt.blocks) + 1,
        walk_stmt(before, expander, stmt).0.plan.heads.len() == before.plan.heads.len()
            + count_blocks_in(stmt.blocks),
    decreases stmt, 1nat,
{
    let name = expander.state_arg;
    lemma_walk_blocks(name, next_depth(expander.depth), before, stmt.blocks);
    let inner = walk_blocks(name, next_depth(expander.depth), before, stmt.blocks);
    let (after, met) = walk_stmt(before, expander, stmt);
    if expander.slot is Some {
        let slot = expander.slot->0 as int;
        assert(inner.state.fields.take(before.state.fields.len() as int)[slot]
            == inner.state.fields[slot]);
    }
    assert(after.plan.rewrites.take(inner.plan.rewrites.len() as int) =~= inner.plan.rewrites);
    assert(after.plan.heads.take(inner.plan.heads.len() as int) =~= inner.plan.heads);
    assert(after.state.fields.take(inner.state.fields.len() as int) =~= inner.state.fields);
    assert(after.state.new_args.take(inner.state.new_args.len() as int)
        =~= inner.state.new_args);
    lemma_extends_transitive(before, inner, after);
}

/// The same of a walk over the blocks nested in a statement.
pub proof fn lemma_walk_blocks(name: Seq<char>, depth: nat, before: Walked, blocks: Seq<BlockView>)
    ensures
        extends(before, walk_blocks(name, depth, before, blocks)),
        walk_blocks(name, depth, before, blocks).plan.rewrites.len() == before.plan.rewrites.len()
            + count_stmts_in(blocks),
        walk_blocks(name, depth, before, blocks).plan.heads.len() == before.plan.heads.len()
            + count_blocks_in(blocks),
    decreases blocks, 0nat,
{
    if blocks.len() == 0 {
        lemma_extends_itself(before);
    } else {
        lemma_walk_blocks(name, depth, before, blocks.drop_last());
        let earlier = walk_blocks(name, depth, before, blocks.drop_last());
        lemma_walk_block(name, depth, earlier, blocks.last());
        lemma_extends_transitive(
            before,
            earlier,
            walk_block(name, depth, earlier, blocks.last()),
        );
    }
}

/// No statement of the block or of the blocks nested in it is a tagged `let`.
pub open spec fn untagged(block: BlockView) -> bool
    decreases block,
{
    untagged_stmts(block.stmts)
}

/// None of the statements is a tagged `let`, nor any in the blocks nested in them.
pub open spec fn untagged_stmts(stmts: Seq<StmtView>) -> bool
    decreases stmts,
{
    if stmts.len() == 0 {
        true
    } else {
        &&& untagged_stmts(stmts.drop_last())
        &&& untagged_blocks(stmts.last().blocks)
        &&& (stmts.last().local matches Some(local) ==> retained_of(local) is None)
    }
}

/// No statement of the blocks is a tagged `let`.
pub open spec fn untagged_blocks(blocks: Seq<BlockView>) -> bool
    decreases blocks,
{
    if blocks.len() == 0 {
        true
    } else {
        untagged_blocks(blocks.drop_last()) && untagged(blocks.last())
    }
}

/// Every decision that a walk added is to leave things as they are: each
/// statement stays, and no block gets a statement at its head.
pub open spec fn leaves_alone(before: PlanView, after: PlanView) -> bool {
    &&& forall|i: int|
        before.rewrites.len() <= i < after.rewrites.len() ==> after.rewrites[i]
            == RewriteView::Keep
    &&& forall|i: int| before.heads.len() <= i < after.heads.len() ==> after.heads[i] is None
}

/// Where a first walk leaves things alone up to a second, and the second up
/// to a third, the first leaves them alone up to the third.
pub proof fn lemma_leaves_alone_transitive(first: Walked, second: Walked, third: Walked)
    requires
        extends(first, second),
        extends(second, third),
        leaves_alone(first.plan, second.plan),
        leaves_alone(second.plan, third.plan),
    ensures
        leaves_alone(first.plan, third.plan),
{
    assert forall|i: int|
        first.plan.rewrites.len() <= i < third.plan.rewrites.len() implies third.plan.rewrites[i]
        == RewriteView::Keep by {
        if i < second.plan.rewrites.len() {
            assert(third.plan.rewrites.take(second.plan.rewrites.len() as int)[i]
                == third.plan.rewrites[i]);
        }
    }
    assert forall|i: int|
        first.plan.heads.len() <= i < third.plan.heads.len() implies third.plan.heads[i]
        is None by {
        if i < second.plan.heads.len() {
            assert(third.plan.heads.take(second.plan.heads.len() as int)[i] == third.plan.heads[i]);
        }
    }
}

/// A walk over a block without tagged declarations leaves every statement
/// as it is and commits nothing.
pub proof fn lemma_untagged_block(name: Seq<char>, depth: nat, before: Walked, block: BlockView)
    requires
        untagged(block),
    ensures
        walk_block(name, depth, before, block).state == before.state,
        leaves_alone(before.plan, walk_block(name, depth, before, block).plan),
    decreases block, 0nat,
{
    let base = before.state.fields.len();
    lemma_untagged_stmts(before, begun(name, depth), block.stmts, base);
    lemma_walk_stmts(before, begun(name, depth), block.stmts, base);
    lemma_walk_block(name, depth, before, block);
    let (after, expander) = walk_stmts(before, begun(name, depth), block.stmts);
    let ended = walk_block(name, depth, before, block);
    assert(ended.plan.heads.take(after.plan.heads.len() as int) =~= after.plan.heads);
    assert(ended.plan.rewrites.take(after.plan.rewrites.len() as int) =~= after.plan.rewrites);
    lemma_extends_itself(after);
    assert(extends(after, ended));
    lemma_leaves_alone_transitive(before, after, ended);
}

/// The same of a walk over statements, which also leaves the block as it is.
pub proof fn lemma_untagged_stmts(
    before: Walked,
    expander: ExpanderView,
    stmts: Seq<StmtView>,
    base: nat,
)
    requires
        untagged_stmts(stmts),
        base <= before.state.fields.len(),
        placed(expander, base, before.state),
    ensures
        walk_stmts(before, expander, stmts).0.state == before.state,
        walk_stmts(before, expander, stmts).1 == expander,
        leaves_alone(before.plan, walk_stmts(before, expander, stmts).0.plan),
    decreases stmts, 0nat,
{
    if stmts.len() > 0 {
        lemma_untagged_stmts(before, expander, stmts.drop_last(), base);
        lemma_walk_stmts(before, expander, stmts.drop_last(), base);
        let (earlier, met) = walk_stmts(before, expander, stmts.drop_last());
        let stmt = stmts.last();
        let name = expander.state_arg;
        lemma_untagged_blocks(name, next_depth(expander.depth), earlier, stmt.blocks);
        lemma_walk_blocks(name, next_depth(expander.depth), earlier, stmt.blocks);
        let inner = walk_blocks(name, next_depth(expander.depth), earlier, stmt.blocks);
        let (after, _) = walk_stmt(earlier, met, stmt);
        lemma_walk_stmt(earlier, met, stmt, base);
        assert(after.plan.rewrites.take(inner.plan.rewrites.len() as int)
            =~= inner.plan.rewrites);
        assert(after.plan.heads.take(inner.plan.heads.len() as int) =~= inner.plan.heads);
        lemma_extends_itself(inner);
        assert(extends(inner, after));
        lemma_leaves_alone_transitive(earlier, inner, after);
        lemma_leaves_alone_transitive(before, earlier, after);
    }
}

/// The same of a walk over the blocks nested in a statement.
pub proof fn lemma_untagged_blocks(
    name: Seq<char>,
    depth: nat,
    before: Walked,
    blocks: Seq<BlockView>,
)
    requires
        untagged_blocks(blocks),
    ensures
        walk_blocks(name, depth, before, blocks).state == before.state,
        leaves_alone(before.plan, walk_blocks(name, depth, before, blocks).plan),
    decreases blocks, 0nat,
{
    if blocks.len() > 0 {
        lemma_untagged_blocks(name, depth, before, blocks.drop_last());
        lemma_walk_blocks(name, depth, before, blocks.drop_last());
        let earlier = walk_blocks(name, depth, before, blocks.drop_last());
        lemma_untagged_block(name, depth, earlier, blocks.last());
        lemma_walk_block(name, depth, earlier, blocks.last());
        lemma_leaves_alone_transitive(
            before,
            earlier,
            walk_block(name, depth, earlier, blocks.last()),
        );
    }
}

/// The constructor parameters that the caller-provided declarations of a
/// block ask for, in the order of the walk.
pub open spec fn provided_in(block: BlockView) -> Seq<StateProvidedView>
    decreases block,
{
    provided_in_stmts(block.stmts)
}

/// The constructor parameters that the statements ask for.
pub open spec fn provided_in_stmts(stmts: Seq<StmtView>) -> Seq<StateProvidedView>
    decreases stmts,
{
    if stmts.len() == 0 {
        Seq::empty()
    } else {
        provided_in_stmts(stmts.drop_last()) + provided_in_blocks(stmts.last().blocks)
            + provided_by(stmts.last().local)
    }
}

/// The constructor parameter that one statement asks for, if it is a
/// caller-provided declaration that is not refused.
pub open spec fn provided_by(local: Option<LocalView>) -> Seq<StateProvidedView> {
    match local {
        Some(local) => match retained_of(local) {
            Some(Ok(RetainedLetView::Provided(stmt))) => seq![
                StateProvidedView { name: stmt.name, ty: stmt.ty },
            ],
            _ => Seq::empty(),
        },
        None => Seq::empty(),
    }
}

/// The constructor parameters that the blocks ask for.
pub open spec fn provided_in_blocks(blocks: Seq<BlockView>) -> Seq<StateProvidedView>
    decreases blocks,
{
    if blocks.len() == 0 {
        Seq::empty()
    } else {
        provided_in_blocks(blocks.drop_last()) + provided_in(blocks.last())
    }
}

/// The constructor parameters that a walk adds are those of the
/// caller-provided declarations that it passes, in its order, behind the
/// parameters that were there.
pub proof fn lemma_provided_block(name: Seq<char>, depth: nat, before: Walked, block: BlockView)
    ensures
        walk_block(name, depth, before, block).state.new_args == before.state.new_args
            + provided_in(block),
    decreases block, 0nat,
{
    lemma_provided_stmts(before, begun(name, depth), block.stmts);
}

/// The same of a walk over statements.
pub proof fn lemma_provided_stmts(before: Walked, expander: ExpanderView, stmts: Seq<StmtView>)
    ensures
        walk_stmts(before, expander, stmts).0.state.new_args == before.state.new_args
            + provided_in_stmts(stmts),
    decreases stmts, 0nat,
{
    if stmts.len() == 0 {
        assert(before.state.new_args + provided_in_stmts(stmts) =~= before.state.new_args);
    } else {
        lemma_provided_stmts(before, expander, stmts.drop_last());
        let (earlier, met) = walk_stmts(before, expander, stmts.drop_last());
        let stmt = stmts.last();
        lemma_provided_blocks(met.state_arg, next_depth(met.depth), earlier, stmt.blocks);
        let inner = walk_blocks(met.state_arg, next_depth(met.depth), earlier, stmt.blocks);
        let (after, _) = walk_stmt(earlier, met, stmt);
        assert(after.state.new_args =~= inner.state.new_args + provided_by(stmt.local));
        assert(after.state.new_args =~= before.state.new_args + provided_in_stmts(stmts));
    }
}

/// The same of a walk over the blocks nested in a statement.
pub proof fn lemma_provided_blocks(
    name: Seq<char>,
    depth: nat,
    before: Walked,
    blocks: Seq<BlockView>,
)
    ensures
        walk_blocks(name, depth, before, blocks).state.new_args == before.state.new_args
            + provided_in_blocks(blocks),
    decreases blocks, 0nat,
{
    if blocks.len() == 0 {
        assert(before.state.new_args + provided_in_blocks(blocks) =~= before.state.new_args);
    } else {
        lemma_provided_blocks(name, depth, before, blocks.drop_last());
        let earlier = walk_blocks(name, depth, before, blocks.drop_last());
        lemma_provided_block(name, depth, earlier, blocks.last());
        assert(walk_blocks(name, depth, before, blocks).state.new_args =~= before.state.new_args
            + provided_in_blocks(blocks));
    }
}

/// The types of the lazy declarations among the statements themselves, in
/// source order. What stands in the blocks nested in the statements does
/// not count.
pub open spec fn lazy_types(stmts: Seq<StmtView>) -> Seq<Seq<Token>>
    decreases stmts.len(),
{
    if stmts.len() == 0 {
        Seq::empty()
    } else {
        lazy_types(stmts.drop_last()) + lazy_type(stmts.last())
    }
}

/// The type of a statement that is a lazy declaration.
pub open spec fn lazy_type(stmt: StmtView) -> Seq<Seq<Token>> {
    match stmt.local {
        Some(local) => match retained_of(local) {
            Some(Ok(RetainedLetView::Inplace(stmt))) => seq![stmt.ty],
            _ => Seq::empty(),
        },
        None => Seq::empty(),
    }
}

/// The chain of a block has one link for each lazy declaration that stands
/// in the block itself, in source order, whatever the blocks nested in the
/// block hold: the shape of a composite slot follows the nesting of the
/// source.
pub proof fn lemma_chain_of_block(before: Walked, expander: ExpanderView, stmts: Seq<StmtView>)
    ensures
        walk_stmts(before, expander, stmts).1.stack == expander.stack + lazy_types(stmts),
    decreases stmts.len(),
{
    if stmts.len() == 0 {
        assert(expander.stack + lazy_types(stmts) =~= expander.stack);
    } else {
        lemma_chain_of_block(before, expander, stmts.drop_last());
        let (earlier, met) = walk_stmts(before, expander, stmts.drop_last());
        let (after, grown) = walk_stmt(earlier, met, stmts.last());
        assert(grown.stack =~= met.stack + lazy_type(stmts.last()));
        assert(grown.stack =~= expander.stack + lazy_types(stmts));
    }
}

/// A walk over statements is the walk over the first of them, and then
/// over the others.
pub proof fn lemma_walk_stmts_split(
    before: Walked,
    expander: ExpanderView,
    stmts: Seq<StmtView>,
    first: int,
)
    requires
        0 <= first <= stmts.len(),
    ensures
        walk_stmts(before, expander, stmts) == walk_stmts(
            walk_stmts(before, expander, stmts.take(first)).0,
            walk_stmts(before, expander, stmts.take(first)).1,
            stmts.skip(first),
        ),
    decreases stmts.len(),
{
    if first == stmts.len() {
        assert(stmts.take(first) =~= stmts);
        assert(stmts.skip(first) =~= Seq::<StmtView>::empty());
    } else {
        lemma_walk_stmts_split(before, expander, stmts.drop_last(), first);
        assert(stmts.drop_last().take(first) =~= stmts.take(first));
        assert(stmts.skip(first).drop_last() =~= stmts.drop_last().skip(first));
        assert(stmts.skip(first).last() == stmts.last());
    }
}

/// The later record has every slot of the earlier one that holds more than
/// a place, at its position and as it was.
pub open spec fn keeps_filled(before: StateView, after: StateView) -> bool {
    &&& before.fields.len() <= after.fields.len()
    &&& forall|i: int|
        0 <= i < before.fields.len() && before.fields[i] != pending() ==> after.fields[i]
            == #[trigger] before.fields[i]
}

/// The position of the composite slot of a block: the one that the block's
/// first lazy declaration reserves.
pub open spec fn chain_slot(name: Seq<char>, depth: nat, before: Walked, block: BlockView) -> nat {
    let (after, expander) = walk_stmts(before, begun(name, depth), block.stmts);
    chain_index(expander, after.state)
}

/// The statement at the head of a block with lazy declarations names a
/// slot that the walk over the block added to the record, and at the end of
/// the block that slot holds the chain of the block's lazy declarations, one
/// link for each, in source order. A block without lazy declarations gets
/// no statement at its head.
pub proof fn lemma_block_chain(name: Seq<char>, depth: nat, before: Walked, block: BlockView)
    ensures
        ({
            let ended = walk_block(name, depth, before, block);
            let chain = lazy_types(block.stmts);
            let slot = chain_slot(name, depth, before, block);
            &&& ended.plan.heads.len() > 0
            &&& chain.len() == 0 ==> ended.plan.heads.last() is None
            &&& chain.len() > 0 ==> {
                &&& before.state.fields.len() <= slot < ended.state.fields.len()
                &&& ended.plan.heads.last() == Some(
                    chain_binding(name + decimal(depth), name, slot),
                )
                &&& ended.state.fields[slot as int] == composite(chain)
            }
        }),
{
    let base = before.state.fields.len();
    lemma_walk_stmts(before, begun(name, depth), block.stmts, base);
    lemma_chain_of_block(before, begun(name, depth), block.stmts);
    let (after, expander) = walk_stmts(before, begun(name, depth), block.stmts);
    assert(expander.stack =~= lazy_types(block.stmts));
}

/// The end of a block changes no slot that holds more than a place: it
/// fills the place that the block reserved.
pub proof fn lemma_block_settles(
    name: Seq<char>,
    depth: nat,
    before: Walked,
    block: BlockView,
    first: int,
)
    requires
        0 <= first <= block.stmts.len(),
    ensures
        keeps_filled(
            walk_stmts(before, begun(name, depth), block.stmts.take(first)).0.state,
            walk_block(name, depth, before, block).state,
        ),
{
    let base = before.state.fields.len();
    let stmts = block.stmts;
    lemma_walk_stmts(before, begun(name, depth), stmts.take(first), base);
    let (earlier, met) = walk_stmts(before, begun(name, depth), stmts.take(first));
    lemma_walk_stmts_split(before, begun(name, depth), stmts, first);
    lemma_walk_stmts(earlier, met, stmts.skip(first), base);
    let (after, expander) = walk_stmts(before, begun(name, depth), stmts);
    let ended = walk_block(name, depth, before, block);
    assert forall|i: int|
        0 <= i < earlier.state.fields.len() && earlier.state.fields[i]
            != pending() implies ended.state.fields[i] == #[trigger] earlier.state.fields[i] by {
        assert(after.state.fields.take(earlier.state.fields.len() as int)[i]
            == after.state.fields[i]);
    }
}

/// The read that replaces an eager or a caller-provided declaration of a
/// block names a slot that the walk over the block added to the record, and
/// at the end of the block that slot is the one committed for the
/// declaration, with its type and its initializer.
pub proof fn lemma_statement_slot(
    name: Seq<char>,
    depth: nat,
    before: Walked,
    block: BlockView,
    at: int,
)
    requires
        0 <= at < block.stmts.len(),
        block.stmts[at].local is Some,
        retained_of(block.stmts[at].local->0) is Some,
        retained_of(block.stmts[at].local->0)->0 is Ok,
        !(retained_of(block.stmts[at].local->0)->0->Ok_0 is Inplace),
    ensures
        ({
            let stmt = retained_of(block.stmts[at].local->0)->0->Ok_0;
            let (earlier, met) = walk_stmts(before, begun(name, depth), block.stmts.take(at));
            let inner = walk_blocks(name, next_depth(depth), earlier, block.stmts[at].blocks);
            let slot = inner.state.fields.len() as int;
            let decided = inner.plan.rewrites.len() as int;
            let ended = walk_block(name, depth, before, block);
            &&& before.state.fields.len() <= slot < ended.state.fields.len()
            &&& decided < ended.plan.rewrites.len()
            &&& ended.plan.rewrites[decided] == RewriteView::Replace(
                direct_read(pattern_of(stmt), name, slot as nat),
            )
            &&& ended.state.fields[slot] == direct_slot(stmt)
        }),
{
    let base = before.state.fields.len();
    let stmts = block.stmts;
    let root = begun(name, depth);
    lemma_walk_stmts(before, root, stmts.take(at), base);
    let (earlier, met) = walk_stmts(before, root, stmts.take(at));
    lemma_walk_blocks(name, next_depth(depth), earlier, stmts[at].blocks);
    let inner = walk_blocks(name, next_depth(depth), earlier, stmts[at].blocks);
    let slot = inner.state.fields.len() as int;
    let decided = inner.plan.rewrites.len() as int;
    assert(stmts.take(at + 1).drop_last() =~= stmts.take(at));
    assert(stmts.take(at + 1).last() == stmts[at]);
    let (now, with) = walk_stmts(before, root, stmts.take(at + 1));
    assert((now, with) == walk_stmt(earlier, met, stmts[at]));
    lemma_walk_stmts(before, root, stmts.take(at + 1), base);
    lemma_walk_stmts_split(before, root, stmts, at + 1);
    lemma_walk_stmts(now, with, stmts.skip(at + 1), base);
    let (after, expander) = walk_stmts(before, root, stmts);
    assert(after.state.fields.take(now.state.fields.len() as int)[slot]
        == after.state.fields[slot]);
    assert(after.plan.rewrites.take(now.plan.rewrites.len() as int)[decided]
        == after.plan.rewrites[decided]);
    lemma_block_settles(name, depth, before, block, at + 1);
}

/// A lazy declaration in front gives the chain its first link.
pub proof fn lemma_lazy_types_first(stmts: Seq<StmtView>)
    requires
        stmts.len() > 0,
        lazy_type(stmts[0]).len() == 1,
    ensures
        lazy_types(stmts).len() > 0,
        lazy_types(stmts)[0] == lazy_type(stmts[0])[0],
    decreases stmts.len(),
{
    if stmts.len() == 1 {
        assert(lazy_types(stmts.drop_last()) =~= Seq::empty());
    } else {
        lemma_lazy_types_first(stmts.drop_last());
    }
}

/// The first tagged declaration of a function body gets the first slot of
/// the record. Where the first statement of the body is an eager or a
/// caller-provided declaration, the first slot is the one committed for it;
/// where it is a lazy declaration, the first slot is the composite slot of
/// the body, whose chain begins with the declaration's type.
pub proof fn lemma_first_declaration(name: Seq<char>, before: Walked, body: BlockView)
    requires
        before.state.fields.len() == 0,
        body.stmts.len() > 0,
        body.stmts[0].blocks.len() == 0,
        body.stmts[0].local is Some,
        retained_of(body.stmts[0].local->0) is Some,
        retained_of(body.stmts[0].local->0)->0 is Ok,
    ensures
        ({
            let stmt = retained_of(body.stmts[0].local->0)->0->Ok_0;
            let ended = walk_block(name, 0, before, body);
            &&& ended.state.fields.len() > 0
            &&& !(stmt is Inplace) ==> ended.state.fields[0] == direct_slot(stmt)
            &&& stmt matches RetainedLetView::Inplace(lazy) ==> {
                &&& ended.state.fields[0] == composite(lazy_types(body.stmts))
                &&& lazy_types(body.stmts).len() > 0
                &&& lazy_types(body.stmts)[0] == lazy.ty
            }
        }),
{
    let stmt = retained_of(body.stmts[0].local->0)->0->Ok_0;
    let stmts = body.stmts;
    let root = begun(name, 0);
    assert(stmts.take(0) =~= Seq::<StmtView>::empty());
    assert(walk_stmts(before, root, stmts.take(0)) == (before, root));
    assert(walk_blocks(name, next_depth(0), before, stmts[0].blocks) == before);
    if stmt is Inplace {
        lemma_block_chain(name, 0, before, body);
        lemma_lazy_types_first(stmts);
        assert(stmts.take(1).drop_last() =~= stmts.take(0));
        assert(stmts.take(1).last() == stmts[0]);
        let (now, with) = walk_stmts(before, root, stmts.take(1));
        assert((now, with) == walk_stmt(before, root, stmts[0]));
        assert(with.slot == Some(0nat));
        lemma_walk_stmts(before, root, stmts.take(1), 0);
        lemma_walk_stmts_split(before, root, stmts, 1);
        lemma_walk_stmts(now, with, stmts.skip(1), 0);
    } else {
        lemma_statement_slot(name, 0, before, body, 0);
    }
}

/// Every slot from the given position on holds more than a place, but for
/// the one that the block under way has reserved.
pub open spec fn filled_from(state: StateView, base: nat, reserved: Option<nat>) -> bool {
    forall|i: int|
        base <= i < state.fields.len() && reserved != Some(i as nat) ==> #[trigger] state.fields[i]
            != pending()
}

/// A chain with a link is more than a place.
pub proof fn lemma_composite_is_filled(stack: Seq<Seq<Token>>)
    requires
        stack.len() > 0,
    ensures
        composite(stack) != pending(),
{
    assert(composite(stack).ty.len() == 12);
    assert(pending().ty.len() == 1);
}

/// No slot is wasted: every slot that a walk over a block adds to the record
/// holds a declaration's value or a chain with at least one link when the
/// block ends. No place is left over.
pub proof fn lemma_block_fills(name: Seq<char>, depth: nat, before: Walked, block: BlockView)
    ensures
        filled_from(
            walk_block(name, depth, before, block).state,
            before.state.fields.len(),
            None,
        ),
    decreases block, 0nat,
{
    let base = before.state.fields.len();
    lemma_stmts_fill(before, begun(name, depth), block.stmts, base);
    lemma_walk_stmts(before, begun(name, depth), block.stmts, base);
    let (after, expander) = walk_stmts(before, begun(name, depth), block.stmts);
    if expander.stack.len() > 0 {
        lemma_composite_is_filled(expander.stack);
    }
}

/// The same of a walk over statements of a block that has its place.
pub proof fn lemma_stmts_fill(
    before: Walked,
    expander: ExpanderView,
    stmts: Seq<StmtView>,
    base: nat,
)
    requires
        base <= before.state.fields.len(),
        placed(expander, base, before.state),
        filled_from(before.state, base, expander.slot),
    ensures
        filled_from(
            walk_stmts(before, expander, stmts).0.state,
            base,
            walk_stmts(before, expander, stmts).1.slot,
        ),
    decreases stmts, 0nat,
{
    if stmts.len() > 0 {
        lemma_stmts_fill(before, expander, stmts.drop_last(), base);
        lemma_walk_stmts(before, expander, stmts.drop_last(), base);
        let (earlier, met) = walk_stmts(before, expander, stmts.drop_last());
        let stmt = stmts.last();
        lemma_blocks_fill(met.state_arg, next_depth(met.depth), earlier, stmt.blocks);
        lemma_walk_blocks(met.state_arg, next_depth(met.depth), earlier, stmt.blocks);
        let inner = walk_blocks(met.state_arg, next_depth(met.depth), earlier, stmt.blocks);
        assert forall|i: int|
            base <= i < inner.state.fields.len() && met.slot != Some(
                i as nat,
            ) implies #[trigger] inner.state.fields[i] != pending() by {
            if i < earlier.state.fields.len() {
                assert(inner.state.fields.take(earlier.state.fields.len() as int)[i]
                    == inner.state.fields[i]);
            }
        }
        let (after, grown) = walk_stmt(earlier, met, stmt);
        assert forall|i: int|
            base <= i < after.state.fields.len() && grown.slot != Some(
                i as nat,
            ) implies #[trigger] after.state.fields[i] != pending() by {
            if i < inner.state.fields.len() {
                assert(after.state.fields[i] == inner.state.fields[i]);
            }
        }
    }
}

/// The same of a walk over the blocks nested in a statement.
pub proof fn lemma_blocks_fill(name: Seq<char>, depth: nat, before: Walked, blocks: Seq<BlockView>)
    ensures
        filled_from(
            walk_blocks(name, depth, before, blocks).state,
            before.state.fields.len(),
            None,
        ),
    decreases blocks, 0nat,
{
    if blocks.len() > 0 {
        lemma_blocks_fill(name, depth, before, blocks.drop_last());
        lemma_walk_blocks(name, depth, before, blocks.drop_last());
        let earlier = walk_blocks(name, depth, before, blocks.drop_last());
        lemma_block_fills(name, depth, earlier, blocks.last());
        lemma_walk_block(name, depth, earlier, blocks.last());
        let ended = walk_block(name, depth, earlier, blocks.last());
        assert forall|i: int|
            before.state.fields.len() <= i < ended.state.fields.len() implies
            #[trigger] ended.state.fields[i] != pending() by {
            if i < earlier.state.fields.len() {
                assert(ended.state.fields.take(earlier.state.fields.len() as int)[i]
                    == ended.state.fields[i]);
            }
        }
    }
}

} // verus!
