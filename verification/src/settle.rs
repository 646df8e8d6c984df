//! Which blocks a read gives a value, and which it leaves without one.
use vstd::prelude::*;

use crate::blocks::BlockId;
use crate::frame::extends;
use crate::frame::lemma_add_phi_operands_extends;
use crate::frame::lemma_extends_chains_end;
use crate::frame::lemma_extends_lacking;
use crate::frame::lemma_read_extends;
use crate::frame::lemma_read_operands_extends;
use crate::frame::lemma_try_remove_extends;
use crate::frame::lemma_write_phi_gains;
use crate::frame::same_shape;
use crate::inst::SsaValue;
use crate::measure::lacking;
use crate::measure::lemma_rank_decreases;
use crate::model::blocks_insert_predecessors;
use crate::model::blocks_take_predecessors;
use crate::model::phis_build;
use crate::model::phis_push_operand;
use crate::model::ProgramView;
use crate::phi::PhiId;
use crate::program::VarId;
use crate::semantics::add_phi_operands;
use crate::semantics::read;
use crate::semantics::read_operands;
use crate::semantics::read_recursive;
use crate::semantics::try_remove_trivial_phi;
use crate::semantics::write_var;

verus! {

/// A read of `v` in the block would give the block no value: the block holds
/// none and is open, or is sealed with exactly one predecessor.
pub open spec fn stays_empty(s: ProgramView, c: BlockId, v: VarId) -> bool {
    &&& s.has_block(c)
    &&& !s.holds(c, v)
    &&& (!s.block(c).sealed || s.block(c).predecessors.len() == 1)
}

/// Every block that a read of `v` would give no value in `before` is such a
/// block in `after`, and has its predecessors if it is sealed.
pub open spec fn keeps_empty(before: ProgramView, after: ProgramView, v: VarId) -> bool {
    &&& after.blocks.len() == before.blocks.len()
    &&& forall|c: BlockId| #[trigger]
        stays_empty(before, c, v) ==> kept_empty(before, after, c, v)
}

/// The block, which a read of `v` would give no value in `before`, is such a
/// block in `after`: sealed or open as it was, and with its predecessors if
/// it is sealed.
pub open spec fn kept_empty(before: ProgramView, after: ProgramView, c: BlockId, v: VarId) -> bool {
    &&& stays_empty(after, c, v)
    &&& after.block(c).sealed == before.block(c).sealed
    &&& before.block(c).sealed ==> after.block(c).predecessors == before.block(c).predecessors
}

/// What keeps the empty blocks of a program that keeps those of another
/// keeps those of that other one.
pub proof fn lemma_keeps_empty_transitive(a: ProgramView, b: ProgramView, c: ProgramView, v: VarId)
    requires
        keeps_empty(a, b, v),
        keeps_empty(b, c, v),
    ensures
        keeps_empty(a, c, v),
{
    assert forall|x: BlockId| #[trigger] stays_empty(a, x, v) implies kept_empty(a, c, x, v) by {
        assert(stays_empty(b, x, v));
    }
}

/// A program of the same shape keeps its empty blocks empty, if its blocks
/// are sealed or open as before.
pub proof fn lemma_same_shape_keeps_empty(before: ProgramView, after: ProgramView, v: VarId)
    requires
        same_shape(before, after),
        extends(before, after),
    ensures
        keeps_empty(before, after, v),
{
    assert forall|c: BlockId| #[trigger] stays_empty(before, c, v) implies kept_empty(before, after, c, v) by {
        assert(after.blocks[c.0 as int].predecessors == before.blocks[c.0 as int].predecessors);
    }
}

/// The block that owns the phi is none that a read of `v` would leave
/// without a value while it is sealed.
pub open spec fn owner_is_settled(s: ProgramView, v: VarId, p: PhiId) -> bool {
    s.has_phi(p) ==> !s.has_block(s.phi(p).block_id) || s.holds(s.phi(p).block_id, v)
        || !s.block(s.phi(p).block_id).sealed
}

/// A read gives a value to no block that is open, and to no sealed block
/// with exactly one predecessor.
pub proof fn lemma_read_keeps_empty(s: ProgramView, b: BlockId, v: VarId)
    requires
        s.chains_end(v),
        read(s, b, v).0.phis.len() <= usize::MAX,
    ensures
        keeps_empty(s, read(s, b, v).0, v),
    decreases lacking(s.blocks, v), 1nat, s.rank(v, b), 1nat,
{
    if s.has_block(b) && !s.holds(b, v) {
        lemma_read_recursive_keeps_empty(s, b, v);
    }
}

/// The same of `read_recursive`.
pub proof fn lemma_read_recursive_keeps_empty(s: ProgramView, b: BlockId, v: VarId)
    requires
        s.chains_end(v),
        !s.holds(b, v),
        read_recursive(s, b, v).0.phis.len() <= usize::MAX,
    ensures
        keeps_empty(s, read_recursive(s, b, v).0, v),
    decreases lacking(s.blocks, v), 1nat, s.rank(v, b), 0nat,
{
    if !s.is_sealed(b) {
        let after = read_recursive(s, b, v).0;
        assert forall|c: BlockId| #[trigger] stays_empty(s, c, v) implies kept_empty(s, after, c, v) by {
        }
    } else if s.block(b).predecessors.len() == 1 {
        lemma_rank_decreases(s, b, v);
        lemma_read_keeps_empty(s, s.block(b).predecessors[0], v);
    } else {
        let p = phis_build(s.phis, b).1;
        let built = s.with_phis(phis_build(s.phis, b).0);
        let written = write_var(built, b, v, SsaValue::Phi(p));
        lemma_write_phi_gains(s, b, v);
        assert(keeps_empty(s, written.0, v)) by {
            assert forall|c: BlockId| #[trigger] stays_empty(s, c, v) implies kept_empty(s, written.0, c, v) by {
                assert(c != b);
            }
        }
        if written.1 is Ok {
            lemma_add_phi_operands_extends(written.0, b, v, p);
            assert(s.phis.len() <= usize::MAX);
            lemma_add_phi_operands_keeps_empty(written.0, b, v, p);
            lemma_keeps_empty_transitive(s, written.0, add_phi_operands(written.0, b, v, p).0, v);
        }
    }
}

/// The same of `add_phi_operands`, for a phi whose block is none that a read
/// would leave without a value while it is sealed.
pub proof fn lemma_add_phi_operands_keeps_empty(s: ProgramView, b: BlockId, v: VarId, p: PhiId)
    requires
        s.chains_end(v),
        owner_is_settled(s, v, p),
        add_phi_operands(s, b, v, p).0.phis.len() <= usize::MAX,
    ensures
        keeps_empty(s, add_phi_operands(s, b, v, p).0, v),
    decreases lacking(s.blocks, v), 3nat, 0nat, 0nat,
{
    if s.has_phi(p) {
        let owner = s.phi(p).block_id;
        match blocks_take_predecessors(s.blocks, owner).1 {
            None => {
                lemma_try_remove_extends(s, p);
                lemma_same_shape_keeps_empty(s, try_remove_trivial_phi(s, p).0, v);
            },
            Some(predecessors) => {
                let taken = s.with_blocks(blocks_take_predecessors(s.blocks, owner).0);
                assert(extends(s, taken));
                lemma_extends_lacking(s, taken, v);
                lemma_extends_chains_end(s, taken, v);
                let filled = read_operands(taken, predecessors, 0, v, p);
                lemma_read_operands_extends(taken, predecessors, 0, v, p);
                if filled.1 is Ok {
                    let restored = filled.0.with_blocks(
                        blocks_insert_predecessors(filled.0.blocks, owner, predecessors),
                    );
                    lemma_try_remove_extends(restored, p);
                    lemma_read_operands_keeps_empty(taken, predecessors, 0, v, p);
                    let last = try_remove_trivial_phi(restored, p).0;
                    assert forall|c: BlockId| #[trigger] stays_empty(s, c, v) implies kept_empty(s, last, c, v) by {
                        assert(stays_empty(taken, c, v));
                        assert(stays_empty(filled.0, c, v));
                        assert(last.blocks[c.0 as int].predecessors
                            == restored.blocks[c.0 as int].predecessors);
                        assert(filled.0.blocks[c.0 as int].sealed == taken.blocks[c.0 as int].sealed);
                    }
                } else {
                    lemma_read_operands_keeps_empty(taken, predecessors, 0, v, p);
                    assert forall|c: BlockId| #[trigger] stays_empty(s, c, v) implies kept_empty(s, filled.0, c, v) by {
                        assert(stays_empty(taken, c, v));
                    }
                }
            },
        }
    }
}

/// The same of `read_operands`.
pub proof fn lemma_read_operands_keeps_empty(
    s: ProgramView,
    predecessors: Seq<BlockId>,
    i: int,
    v: VarId,
    p: PhiId,
)
    requires
        s.chains_end(v),
        0 <= i,
        read_operands(s, predecessors, i, v, p).0.phis.len() <= usize::MAX,
    ensures
        keeps_empty(s, read_operands(s, predecessors, i, v, p).0, v),
    decreases lacking(s.blocks, v), 2nat, predecessors.len() - i, 0nat,
{
    if i < predecessors.len() {
        lemma_read_extends(s, predecessors[i], v);
        let looked = read(s, predecessors[i], v);
        if looked.1 is Ok {
            let pushed = phis_push_operand(looked.0.phis, p, predecessors[i], v);
            if pushed.1 is Ok {
                let next = looked.0.with_phis(pushed.0);
                assert(extends(s, next));
                lemma_extends_lacking(s, next, v);
                lemma_extends_chains_end(s, next, v);
                lemma_read_operands_extends(next, predecessors, i + 1, v, p);
                lemma_read_keeps_empty(s, predecessors[i], v);
                assert(keeps_empty(looked.0, next, v)) by {
                    assert forall|c: BlockId| #[trigger]
                        stays_empty(looked.0, c, v) implies kept_empty(looked.0, next, c, v) by {}
                }
                lemma_keeps_empty_transitive(s, looked.0, next, v);
                lemma_read_operands_keeps_empty(next, predecessors, i + 1, v, p);
                lemma_keeps_empty_transitive(
                    s,
                    next,
                    read_operands(next, predecessors, i + 1, v, p).0,
                    v,
                );
            } else {
                lemma_read_keeps_empty(s, predecessors[i], v);
            }
        } else {
            lemma_read_keeps_empty(s, predecessors[i], v);
        }
    }
}

} // verus!
