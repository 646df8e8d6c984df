//! The block store.
use vstd::prelude::*;

use crate::error::{outcome, Error, ErrorKind};
use crate::inst::SsaValue;
use crate::model::blocks_add_predecessor;
use crate::model::blocks_block;
use crate::model::blocks_contains;
use crate::model::blocks_get_assignment;
use crate::model::blocks_insert_predecessors;
use crate::model::blocks_is_sealed;
use crate::model::blocks_only_predecessor;
use crate::model::blocks_register_assignment;
use crate::model::blocks_register_incomplete_phi;
use crate::model::blocks_seal;
use crate::model::blocks_take_incomplete_phis;
use crate::model::blocks_take_predecessors;
use crate::model::blocks_try_get_assignment;
use crate::model::BlockView;
use crate::program::VarId;
use crate::table::{table_entries, table_get, table_get_mut, table_insert, table_new, table_of};

verus! {

/// The identifier of a basic block: its position in the block store.
#[derive(Debug, Clone, Copy, PartialEq, Eq, Hash, PartialOrd, Ord, Structural)]
pub struct BlockId(pub usize);

/// A basic block.
pub struct Block {
    /// The identifier of the block.
    id: BlockId,
    /// Whether the block is sealed.
    sealed: bool,
    /// The assignments of this block, keyed by the number of the variable.
    assignments: hashbrown::HashMap<usize, SsaValue>,
    /// The predecessors of this block.
    predecessors: Vec<BlockId>,
    /// The phis of this block that wait for it to be sealed.
    incomplete_phis: Vec<(VarId, SsaValue)>,
}

/// The assignments of a table, keyed by variable.
pub open spec fn assignments_of(table: Map<usize, SsaValue>) -> Map<VarId, SsaValue> {
    Map::new(|v: VarId| table.contains_key(v.0), |v: VarId| table[v.0])
}

impl View for Block {
    type V = BlockView;

    closed spec fn view(&self) -> BlockView {
        BlockView {
            id: self.id,
            sealed: self.sealed,
            assignments: assignments_of(table_of(self.assignments)),
            predecessors: self.predecessors@,
            incomplete_phis: self.incomplete_phis@,
        }
    }
}

/// The blocks of a program.
pub struct Blocks {
    blocks: Vec<Block>,
}

impl View for Blocks {
    type V = Seq<BlockView>;

    closed spec fn view(&self) -> Seq<BlockView> {
        Seq::new(self.blocks@.len(), |i: int| self.blocks@[i]@)
    }
}

impl Block {
    /// The identifier of this block.
    pub fn id(&self) -> (id: BlockId)
        ensures
            id == self@.id,
    {
        self.id
    }

    /// Whether this block is sealed.
    pub fn sealed(&self) -> (sealed: bool)
        ensures
            sealed == self@.sealed,
    {
        self.sealed
    }

    /// The assignments of this block: each variable that the block holds a
    /// value for, once, with that value. The order is not determined.
    pub fn assignments(&self) -> (entries: Vec<(VarId, SsaValue)>)
        ensures
            forall|i: int|
                0 <= i < entries@.len() ==> self@.assignments.contains_pair(
                    (#[trigger] entries@[i]).0,
                    entries@[i].1,
                ),
            forall|i: int, j: int|
                0 <= i < j < entries@.len() ==> (#[trigger] entries@[i]).0 != (
                #[trigger] entries@[j]).0,
            forall|var: VarId| #[trigger]
                self@.assignments.contains_key(var) ==> exists|i: int|
                    0 <= i < entries@.len() && (#[trigger] entries@[i]).0 == var,
    {
        let entries = table_entries(&self.assignments);
        assert forall|var: VarId| #[trigger]
            self@.assignments.contains_key(var) implies exists|i: int|
            0 <= i < entries@.len() && (#[trigger] entries@[i]).0 == var by {
            assert(table_of(self.assignments).contains_key(var.0));
            let i = choose|i: int| 0 <= i < entries@.len() && (#[trigger] entries@[i]).0.0 == var.0;
            assert(entries@[i].0 == var);
        }
        entries
    }

    /// The phis of this block that wait for it to be sealed, each with the
    /// variable that it stands for.
    pub fn incomplete_phis(&self) -> (incomplete_phis: &Vec<(VarId, SsaValue)>)
        ensures
            incomplete_phis@ == self@.incomplete_phis,
    {
        &self.incomplete_phis
    }

    /// The predecessors of this block, in the order in which they were added.
    pub fn predecessors(&self) -> (predecessors: &Vec<BlockId>)
        ensures
            predecessors@ == self@.predecessors,
    {
        &self.predecessors
    }
}

impl Default for Blocks {
    fn default() -> (blocks: Self)
        ensures
            blocks@ == Seq::<BlockView>::empty(),
    {
        Blocks::new()
    }
}

impl Blocks {
    /// An empty block store.
    pub fn new() -> (blocks: Self)
        ensures
            blocks@ == Seq::<BlockView>::empty(),
    {
        let blocks = Blocks { blocks: Vec::new() };
        assert(blocks@ =~= Seq::<BlockView>::empty());
        blocks
    }

    /// The identifier of every block fits the machine.
    pub proof fn lemma_len_fits(&self)
        ensures
            self@.len() <= usize::MAX,
    {
        vstd::std_specs::vec::axiom_spec_len(&self.blocks);
    }

    /// The blocks, in the order of their identifiers.
    pub fn as_slice(&self) -> (blocks: &[Block])
        ensures
            blocks@.len() == self@.len(),
            forall|i: int| 0 <= i < blocks@.len() ==> (#[trigger] blocks@[i])@ == self@[i],
    {
        self.blocks.as_slice()
    }

    /// Add `to` to the predecessors of `from`.
    pub fn add_predecessor(&mut self, from: BlockId, to: BlockId) -> (result: Result<(), Error>)
        ensures
            (final(self)@, outcome(result)) == blocks_add_predecessor(old(self)@, from, to),
    {
        if from.0 >= self.blocks.len() {
            return Err(Error::new(ErrorKind::MissingBlock { block_id: from }));
        }
        let block = &mut self.blocks[from.0];
        block.predecessors.push(to);
        assert(self@ =~= blocks_add_predecessor(old(self)@, from, to).0);
        Ok(())
    }

    /// Take the incomplete phis of the block, which keeps none.
    pub fn take_incomplete_phis(&mut self, block_id: BlockId) -> (phis: Vec<(VarId, SsaValue)>)
        ensures
            (final(self)@, phis@) == blocks_take_incomplete_phis(old(self)@, block_id),
    {
        let mut phis: Vec<(VarId, SsaValue)> = Vec::new();
        if block_id.0 < self.blocks.len() {
            let block = &mut self.blocks[block_id.0];
            std::mem::swap(&mut block.incomplete_phis, &mut phis);
            assert(self@ =~= blocks_take_incomplete_phis(old(self)@, block_id).0);
        }
        phis
    }

    /// Record a phi of the block that waits for the block to be sealed.
    pub fn register_incomplete_phi(&mut self, block_id: BlockId, var: VarId, value: SsaValue) -> (result:
        Result<(), Error>)
        ensures
            (final(self)@, outcome(result)) == blocks_register_incomplete_phi(
                old(self)@,
                block_id,
                var,
                value,
            ),
    {
        if block_id.0 >= self.blocks.len() {
            return Err(Error::new(ErrorKind::MissingBlock { block_id }));
        }
        let block = &mut self.blocks[block_id.0];
        block.incomplete_phis.push((var, value));
        assert(self@ =~= blocks_register_incomplete_phi(old(self)@, block_id, var, value).0);
        Ok(())
    }

    /// Assign the value to the variable in the block.
    pub fn register_assignment(&mut self, block_id: BlockId, var: VarId, value: SsaValue) -> (result:
        Result<(), Error>)
        ensures
            (final(self)@, outcome(result)) == blocks_register_assignment(
                old(self)@,
                block_id,
                var,
                value,
            ),
    {
        if block_id.0 >= self.blocks.len() {
            return Err(Error::new(ErrorKind::MissingBlock { block_id }));
        }
        let block = &mut self.blocks[block_id.0];
        let ghost before = table_of(block.assignments);
        table_insert(&mut block.assignments, var.0, value);
        proof {
            lemma_assignments_insert(before, var, value);
            assert(self@ =~= blocks_register_assignment(old(self)@, block_id, var, value).0);
        }
        Ok(())
    }

    /// The value that the block holds for the variable.
    pub fn get_assignment(&self, block_id: BlockId, var: VarId) -> (result: Result<SsaValue, Error>)
        ensures
            outcome(result) == blocks_get_assignment(self@, block_id, var),
    {
        if block_id.0 >= self.blocks.len() {
            return Err(Error::new(ErrorKind::MissingBlock { block_id }));
        }
        match table_get(&self.blocks[block_id.0].assignments, var.0) {
            Some(value) => Ok(value),
            None => Err(Error::new(ErrorKind::MissingVar { id: var })),
        }
    }

    /// The value that the block holds for the variable, if there is one.
    pub fn try_get_assignment(&self, block_id: BlockId, var: VarId) -> (value: Option<SsaValue>)
        ensures
            value == blocks_try_get_assignment(self@, block_id, var),
    {
        if block_id.0 >= self.blocks.len() {
            return None;
        }
        table_get(&self.blocks[block_id.0].assignments, var.0)
    }

    /// The place where the block holds its value for the variable, if it
    /// holds one. What is written there is what the block holds afterwards.
    pub fn get_assignment_mut(&mut self, block_id: BlockId, var: VarId) -> (slot: Option<
        &mut SsaValue,
    >)
        ensures
            match slot {
                Some(value) => blocks_try_get_assignment(old(self)@, block_id, var) == Some(*value)
                    && final(self)@ =~= old(self)@.update(
                    block_id.0 as int,
                    old(self)@[block_id.0 as int].with_assignments(
                        old(self)@[block_id.0 as int].assignments.insert(var, *final(value)),
                    ),
                ),
                None => blocks_try_get_assignment(old(self)@, block_id, var) is None
                    && final(self)@ =~= old(self)@,
            },
    {
        if block_id.0 >= self.blocks.len() {
            return None;
        }
        proof {
            let table = table_of(self.blocks[block_id.0 as int].assignments);
            assert forall|value: SsaValue|
                assignments_of(#[trigger] table.insert(var.0, value)) == assignments_of(
                    table,
                ).insert(var, value) by {
                lemma_assignments_insert(table, var, value);
            }
        }
        let block = &mut self.blocks[block_id.0];
        table_get_mut(&mut block.assignments, var.0)
    }

    /// Whether the store holds the block.
    pub fn contains(&self, block_id: BlockId) -> (found: bool)
        ensures
            found == blocks_contains(self@, block_id),
    {
        block_id.0 < self.blocks.len()
    }

    /// Whether the block is sealed. A block that does not exist is not.
    pub fn is_sealed(&self, block_id: BlockId) -> (sealed: bool)
        ensures
            sealed == blocks_is_sealed(self@, block_id),
    {
        if block_id.0 < self.blocks.len() {
            self.blocks[block_id.0].sealed
        } else {
            false
        }
    }

    /// Seal the block.
    pub fn seal(&mut self, block_id: BlockId) -> (result: Result<(), Error>)
        ensures
            (final(self)@, outcome(result)) == blocks_seal(old(self)@, block_id),
    {
        if block_id.0 >= self.blocks.len() {
            return Err(Error::new(ErrorKind::MissingBlock { block_id }));
        }
        let block = &mut self.blocks[block_id.0];
        if block.sealed {
            return Err(Error::new(ErrorKind::BlockAlreadySealed { block_id }));
        }
        block.sealed = true;
        assert(self@ =~= blocks_seal(old(self)@, block_id).0);
        Ok(())
    }

    /// Create an empty block and return its identifier.
    pub fn block(&mut self) -> (id: BlockId)
        ensures
            (final(self)@, id) == blocks_block(old(self)@),
    {
        let id = BlockId(self.blocks.len());
        let assignments = table_new();
        assert(assignments_of(table_of(assignments)) =~= Map::<VarId, SsaValue>::empty());
        self.blocks.push(
            Block {
                id,
                sealed: false,
                assignments,
                predecessors: Vec::new(),
                incomplete_phis: Vec::new(),
            },
        );
        assert(self@ =~= blocks_block(old(self)@).0);
        id
    }

    /// The predecessor of the block, if it has exactly one.
    pub fn only_predecessor(&self, id: BlockId) -> (predecessor: Option<BlockId>)
        ensures
            predecessor == blocks_only_predecessor(self@, id),
    {
        if id.0 >= self.blocks.len() {
            return None;
        }
        let block = &self.blocks[id.0];
        if block.predecessors.len() == 1 {
            Some(block.predecessors[0])
        } else {
            None
        }
    }

    /// Take the predecessors of the block, which keeps none.
    pub fn take_predecessors(&mut self, id: BlockId) -> (predecessors: Option<Vec<BlockId>>)
        ensures
            final(self)@ == blocks_take_predecessors(old(self)@, id).0,
            match predecessors {
                Some(taken) => blocks_take_predecessors(old(self)@, id).1 == Some(taken@),
                None => blocks_take_predecessors(old(self)@, id).1 is None,
            },
    {
        if id.0 >= self.blocks.len() {
            return None;
        }
        let mut taken: Vec<BlockId> = Vec::new();
        let block = &mut self.blocks[id.0];
        std::mem::swap(&mut block.predecessors, &mut taken);
        assert(self@ =~= blocks_take_predecessors(old(self)@, id).0);
        Some(taken)
    }

    /// Put predecessors in place of those that the block has, if it exists.
    pub fn insert_predecessors(&mut self, id: BlockId, predecessors: Vec<BlockId>)
        ensures
            final(self)@ == blocks_insert_predecessors(old(self)@, id, predecessors@),
    {
        if id.0 < self.blocks.len() {
            let block = &mut self.blocks[id.0];
            block.predecessors = predecessors;
            assert(self@ =~= blocks_insert_predecessors(old(self)@, id, predecessors@));
        }
    }
}

/// A value stored under the number of a variable is stored under the variable.
proof fn lemma_assignments_insert(table: Map<usize, SsaValue>, var: VarId, value: SsaValue)
    ensures
        assignments_of(table.insert(var.0, value)) == assignments_of(table).insert(var, value),
{
    assert(assignments_of(table.insert(var.0, value)) =~= assignments_of(table).insert(
        var,
        value,
    ));
}

} // verus!
