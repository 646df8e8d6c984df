//! The mathematical model of a program under construction.
//!
//! A [`ProgramView`] is what a program holds, as sequences, maps and sets.
//! Every operation of the library is stated here as a function on views; the
//! executable functions are proved to compute exactly these.
use vstd::prelude::*;

use crate::blocks::BlockId;
use crate::consts::ConstValue;
use crate::error::ErrorKind;
use crate::inst::SsaValue;
use crate::phi::PhiId;
use crate::program::VarId;

verus! {

/// What a basic block holds.
pub struct BlockView {
    /// The identifier that the block was created with.
    pub id: BlockId,
    /// Whether the block has been sealed.
    pub sealed: bool,
    /// The value most recently assigned to each variable in this block.
    pub assignments: Map<VarId, SsaValue>,
    /// The predecessors, in the order in which they were added.
    pub predecessors: Seq<BlockId>,
    /// The phis that wait for the block to be sealed, in the order in which
    /// they were registered.
    pub incomplete_phis: Seq<(VarId, SsaValue)>,
}

/// What a phi node holds.
pub struct PhiView {
    /// The block that the phi belongs to.
    pub block_id: BlockId,
    /// One entry per predecessor of that block: where to look the operand up.
    pub operands: Seq<(BlockId, VarId)>,
    /// The assignment slots that were registered as holding this phi.
    pub users: Seq<(BlockId, VarId)>,
}

/// What a program holds.
pub struct ProgramView {
    /// The number of the next variable.
    pub var_id: usize,
    /// The blocks; a block's identifier is its position.
    pub blocks: Seq<BlockView>,
    /// The constant pool.
    pub consts: Seq<ConstValue>,
    /// The phis; a phi's identifier is its position.
    pub phis: Seq<PhiView>,
    /// The assignment slots whose value was last put there by replacing a
    /// trivial phi with another phi. They hold a phi without being among its
    /// users.
    pub rerouted: Set<(BlockId, VarId)>,
}

/// What an operation returned, with an error reduced to its kind.
pub type Outcome<T> = Result<T, ErrorKind>;

impl BlockView {
    /// A block as it is created: open and empty.
    pub open spec fn fresh(id: BlockId) -> BlockView {
        BlockView {
            id,
            sealed: false,
            assignments: Map::empty(),
            predecessors: Seq::empty(),
            incomplete_phis: Seq::empty(),
        }
    }

    /// The block, sealed or open as given.
    pub open spec fn with_sealed(self, sealed: bool) -> BlockView {
        BlockView { sealed, ..self }
    }

    /// The block with other assignments.
    pub open spec fn with_assignments(self, assignments: Map<VarId, SsaValue>) -> BlockView {
        BlockView { assignments, ..self }
    }

    /// The block with other predecessors.
    pub open spec fn with_predecessors(self, predecessors: Seq<BlockId>) -> BlockView {
        BlockView { predecessors, ..self }
    }

    /// The block with other incomplete phis.
    pub open spec fn with_incomplete_phis(
        self,
        incomplete_phis: Seq<(VarId, SsaValue)>,
    ) -> BlockView {
        BlockView { incomplete_phis, ..self }
    }
}

impl PhiView {
    /// A phi as it is built: without operands and without users.
    pub open spec fn fresh(block_id: BlockId) -> PhiView {
        PhiView { block_id, operands: Seq::empty(), users: Seq::empty() }
    }

    /// The phi with other operands.
    pub open spec fn with_operands(self, operands: Seq<(BlockId, VarId)>) -> PhiView {
        PhiView { operands, ..self }
    }

    /// The phi with other users.
    pub open spec fn with_users(self, users: Seq<(BlockId, VarId)>) -> PhiView {
        PhiView { users, ..self }
    }
}

impl ProgramView {
    /// The program as it is created.
    pub open spec fn empty() -> ProgramView {
        ProgramView {
            var_id: 0,
            blocks: Seq::empty(),
            consts: Seq::empty(),
            phis: Seq::empty(),
            rerouted: Set::empty(),
        }
    }

    /// The program has a block with this identifier.
    pub open spec fn has_block(self, b: BlockId) -> bool {
        b.0 < self.blocks.len()
    }

    /// The program has a phi with this identifier.
    pub open spec fn has_phi(self, p: PhiId) -> bool {
        p.0 < self.phis.len()
    }

    /// The block with this identifier.
    pub open spec fn block(self, b: BlockId) -> BlockView {
        self.blocks[b.0 as int]
    }

    /// The phi with this identifier.
    pub open spec fn phi(self, p: PhiId) -> PhiView {
        self.phis[p.0 as int]
    }

    /// The block exists and holds a value for the variable.
    pub open spec fn holds(self, b: BlockId, v: VarId) -> bool {
        self.has_block(b) && self.block(b).assignments.contains_key(v)
    }

    /// The value that the block holds for the variable.
    pub open spec fn value(self, b: BlockId, v: VarId) -> SsaValue {
        self.block(b).assignments[v]
    }

    /// The incomplete phis of the block; none where it does not exist.
    pub open spec fn waiting(self, b: BlockId) -> Seq<(VarId, SsaValue)> {
        if self.has_block(b) {
            self.block(b).incomplete_phis
        } else {
            Seq::empty()
        }
    }

    /// The block exists and is sealed.
    pub open spec fn is_sealed(self, b: BlockId) -> bool {
        self.has_block(b) && self.block(b).sealed
    }

    /// The program with other blocks.
    pub open spec fn with_blocks(self, blocks: Seq<BlockView>) -> ProgramView {
        ProgramView { blocks, ..self }
    }

    /// The program with other phis.
    pub open spec fn with_phis(self, phis: Seq<PhiView>) -> ProgramView {
        ProgramView { phis, ..self }
    }



}

/// `Blocks::contains`: the store holds a block with this identifier.
pub open spec fn blocks_contains(blocks: Seq<BlockView>, b: BlockId) -> bool {
    b.0 < blocks.len()
}

/// `Blocks::is_sealed`: the block exists and is sealed.
pub open spec fn blocks_is_sealed(blocks: Seq<BlockView>, b: BlockId) -> bool {
    blocks_contains(blocks, b) && blocks[b.0 as int].sealed
}

/// `Blocks::block`: a fresh block is appended; its identifier is its position.
pub open spec fn blocks_block(blocks: Seq<BlockView>) -> (Seq<BlockView>, BlockId) {
    let id = BlockId(blocks.len() as usize);
    (blocks.push(BlockView::fresh(id)), id)
}

/// `Blocks::add_predecessor`: `to` is appended to the predecessors of `from`.
pub open spec fn blocks_add_predecessor(blocks: Seq<BlockView>, from: BlockId, to: BlockId) -> (
    Seq<BlockView>,
    Outcome<()>,
) {
    if blocks_contains(blocks, from) {
        let block = blocks[from.0 as int];
        (
            blocks.update(from.0 as int, block.with_predecessors(block.predecessors.push(to))),
            Ok(()),
        )
    } else {
        (blocks, Err(ErrorKind::MissingBlock { block_id: from }))
    }
}

/// `Blocks::take_incomplete_phis`: the block's incomplete phis are handed out
/// and the block keeps none. Of a block that does not exist nothing is taken.
pub open spec fn blocks_take_incomplete_phis(blocks: Seq<BlockView>, b: BlockId) -> (
    Seq<BlockView>,
    Seq<(VarId, SsaValue)>,
) {
    if blocks_contains(blocks, b) {
        let block = blocks[b.0 as int];
        (
            blocks.update(b.0 as int, block.with_incomplete_phis(Seq::empty())),
            block.incomplete_phis,
        )
    } else {
        (blocks, Seq::empty())
    }
}

/// `Blocks::register_incomplete_phi`: the entry is appended to the block's
/// incomplete phis.
pub open spec fn blocks_register_incomplete_phi(
    blocks: Seq<BlockView>,
    b: BlockId,
    v: VarId,
    value: SsaValue,
) -> (Seq<BlockView>, Outcome<()>) {
    if blocks_contains(blocks, b) {
        let block = blocks[b.0 as int];
        (
            blocks.update(
                b.0 as int,
                block.with_incomplete_phis(block.incomplete_phis.push((v, value))),
            ),
            Ok(()),
        )
    } else {
        (blocks, Err(ErrorKind::MissingBlock { block_id: b }))
    }
}

/// `Blocks::register_assignment`: the block holds `value` for `v`, whatever
/// it held for `v` before.
pub open spec fn blocks_register_assignment(
    blocks: Seq<BlockView>,
    b: BlockId,
    v: VarId,
    value: SsaValue,
) -> (Seq<BlockView>, Outcome<()>) {
    if blocks_contains(blocks, b) {
        let block = blocks[b.0 as int];
        (
            blocks.update(b.0 as int, block.with_assignments(block.assignments.insert(v, value))),
            Ok(()),
        )
    } else {
        (blocks, Err(ErrorKind::MissingBlock { block_id: b }))
    }
}

/// `Blocks::try_get_assignment`: the value that the block holds for `v`.
pub open spec fn blocks_try_get_assignment(blocks: Seq<BlockView>, b: BlockId, v: VarId) -> Option<
    SsaValue,
> {
    if blocks_contains(blocks, b) && blocks[b.0 as int].assignments.contains_key(v) {
        Some(blocks[b.0 as int].assignments[v])
    } else {
        None
    }
}

/// `Blocks::get_assignment`: the value that the block holds for `v`, and an
/// error where the block or the value is missing.
pub open spec fn blocks_get_assignment(blocks: Seq<BlockView>, b: BlockId, v: VarId) -> Outcome<
    SsaValue,
> {
    if !blocks_contains(blocks, b) {
        Err(ErrorKind::MissingBlock { block_id: b })
    } else if !blocks[b.0 as int].assignments.contains_key(v) {
        Err(ErrorKind::MissingVar { id: v })
    } else {
        Ok(blocks[b.0 as int].assignments[v])
    }
}

/// `Blocks::seal`: an open block becomes sealed.
pub open spec fn blocks_seal(blocks: Seq<BlockView>, b: BlockId) -> (Seq<BlockView>, Outcome<()>) {
    if !blocks_contains(blocks, b) {
        (blocks, Err(ErrorKind::MissingBlock { block_id: b }))
    } else if blocks[b.0 as int].sealed {
        (blocks, Err(ErrorKind::BlockAlreadySealed { block_id: b }))
    } else {
        (blocks.update(b.0 as int, blocks[b.0 as int].with_sealed(true)), Ok(()))
    }
}

/// `Blocks::only_predecessor`: the predecessor of a block that has exactly
/// one.
pub open spec fn blocks_only_predecessor(blocks: Seq<BlockView>, b: BlockId) -> Option<BlockId> {
    if blocks_contains(blocks, b) && blocks[b.0 as int].predecessors.len() == 1 {
        Some(blocks[b.0 as int].predecessors[0])
    } else {
        None
    }
}

/// `Blocks::take_predecessors`: the block's predecessors are handed out and
/// the block keeps none.
pub open spec fn blocks_take_predecessors(blocks: Seq<BlockView>, b: BlockId) -> (
    Seq<BlockView>,
    Option<Seq<BlockId>>,
) {
    if blocks_contains(blocks, b) {
        let block = blocks[b.0 as int];
        (
            blocks.update(b.0 as int, block.with_predecessors(Seq::empty())),
            Some(block.predecessors),
        )
    } else {
        (blocks, None)
    }
}

/// `Blocks::insert_predecessors`: the block's predecessors are replaced.
pub open spec fn blocks_insert_predecessors(
    blocks: Seq<BlockView>,
    b: BlockId,
    predecessors: Seq<BlockId>,
) -> Seq<BlockView> {
    if blocks_contains(blocks, b) {
        blocks.update(b.0 as int, blocks[b.0 as int].with_predecessors(predecessors))
    } else {
        blocks
    }
}

/// `Phis::build`: a fresh phi of the block is appended; its identifier is its
/// position.
pub open spec fn phis_build(phis: Seq<PhiView>, b: BlockId) -> (Seq<PhiView>, PhiId) {
    (phis.push(PhiView::fresh(b)), PhiId(phis.len() as usize))
}

/// `Phis::get`: the phi with this identifier.
pub open spec fn phis_get(phis: Seq<PhiView>, p: PhiId) -> Outcome<PhiView> {
    if p.0 < phis.len() {
        Ok(phis[p.0 as int])
    } else {
        Err(ErrorKind::MissingPhi { phi_id: p })
    }
}

/// `Phis::register_use`: the slot is appended to the users of the phi.
pub open spec fn phis_register_use(phis: Seq<PhiView>, p: PhiId, b: BlockId, v: VarId) -> (
    Seq<PhiView>,
    Outcome<()>,
) {
    if p.0 < phis.len() {
        let phi = phis[p.0 as int];
        (phis.update(p.0 as int, phi.with_users(phi.users.push((b, v)))), Ok(()))
    } else {
        (phis, Err(ErrorKind::MissingPhi { phi_id: p }))
    }
}

/// `Phis::push_operand`: the operand is appended to the operands of the phi.
pub open spec fn phis_push_operand(phis: Seq<PhiView>, p: PhiId, b: BlockId, v: VarId) -> (
    Seq<PhiView>,
    Outcome<()>,
) {
    if p.0 < phis.len() {
        let phi = phis[p.0 as int];
        (phis.update(p.0 as int, phi.with_operands(phi.operands.push((b, v)))), Ok(()))
    } else {
        (phis, Err(ErrorKind::MissingPhi { phi_id: p }))
    }
}

/// `Phis::take_users_of`: the users of the phi are handed out and the phi
/// keeps none. Of a phi that does not exist nothing is taken.
pub open spec fn phis_take_users_of(phis: Seq<PhiView>, p: PhiId) -> (
    Seq<PhiView>,
    Seq<(BlockId, VarId)>,
) {
    if p.0 < phis.len() {
        let phi = phis[p.0 as int];
        (phis.update(p.0 as int, phi.with_users(Seq::empty())), phi.users)
    } else {
        (phis, Seq::empty())
    }
}

/// `Phis::operands_of`: the operands of the phi; none where it does not exist.
pub open spec fn phis_operands_of(phis: Seq<PhiView>, p: PhiId) -> Seq<(BlockId, VarId)> {
    if p.0 < phis.len() {
        phis[p.0 as int].operands
    } else {
        Seq::empty()
    }
}

} // verus!
