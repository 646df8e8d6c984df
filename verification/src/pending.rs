//! Which lists of incomplete phis a read leaves as they are.
use vstd::prelude::*;

use crate::blocks::BlockId;
use crate::frame::extends;
use crate::frame::lemma_extends_chains_end;
use crate::frame::lemma_extends_lacking;
use crate::frame::lemma_read_extends;
use crate::frame::lemma_try_remove_extends;
use crate::frame::lemma_write_phi_gains;
use crate::inst::SsaValue;
use crate::measure::lacking;
use crate::measure::lemma_rank_decreases;
use crate::model::blocks_insert_predecessors;
use crate::model::blocks_take_predecessors;
use crate::model::phis_build;
use crate::model::phis_push_operand;
use crate::model::ProgramView;
use crate::phi::PhiId;
use crate::program::VarId;
use crate::semantics::add_phi_operands;
use crate::semantics::read;
use crate::semantics::read_operands;
use crate::semantics::read_recursive;
use crate::semantics::try_remove_trivial_phi;
use crate::semantics::write_var;

verus! {

/// Every block that is sealed or holds a value for `v` in `before` has in
/// `after` the incomplete phis that it had.
pub open spec fn keeps_incomplete(before: ProgramView, after: ProgramView, v: VarId) -> bool {
    &&& after.blocks.len() == before.blocks.len()
    &&& forall|i: int|
        0 <= i < before.blocks.len() && ((#[trigger] before.blocks[i]).sealed
            || before.blocks[i].assignments.contains_key(v))
            ==> after.blocks[i].incomplete_phis == before.blocks[i].incomplete_phis
}

/// What keeps the incomplete phis of a program that keeps those of another
/// keeps those of that other one.
pub proof fn lemma_keeps_incomplete_transitive(
    a: ProgramView,
    b: ProgramView,
    c: ProgramView,
    v: VarId,
)
    requires
        extends(a, b),
        keeps_incomplete(a, b, v),
        keeps_incomplete(b, c, v),
    ensures
        keeps_incomplete(a, c, v),
{
    assert forall|i: int|
        0 <= i < a.blocks.len() && ((#[trigger] a.blocks[i]).sealed
            || a.blocks[i].assignments.contains_key(v)) implies c.blocks[i].incomplete_phis
        == a.blocks[i].incomplete_phis by {
        assert(b.blocks[i].sealed == a.blocks[i].sealed);
        assert(b.blocks[i].incomplete_phis == a.blocks[i].incomplete_phis);
    }
}

/// A read of `v` registers an incomplete phi in no block that is sealed, and
/// in none that holds a value for `v`.
pub proof fn lemma_read_keeps_incomplete(s: ProgramView, b: BlockId, v: VarId)
    requires
        s.chains_end(v),
    ensures
        keeps_incomplete(s, read(s, b, v).0, v),
    decreases lacking(s.blocks, v), 1nat, s.rank(v, b), 1nat,
{
    if s.has_block(b) && !s.holds(b, v) {
        lemma_read_recursive_keeps_incomplete(s, b, v);
    }
}

/// The same of `read_recursive`.
pub proof fn lemma_read_recursive_keeps_incomplete(s: ProgramView, b: BlockId, v: VarId)
    requires
        s.chains_end(v),
        !s.holds(b, v),
    ensures
        keeps_incomplete(s, read_recursive(s, b, v).0, v),
    decreases lacking(s.blocks, v), 1nat, s.rank(v, b), 0nat,
{
    if !s.is_sealed(b) {
    } else if s.block(b).predecessors.len() == 1 {
        lemma_rank_decreases(s, b, v);
        lemma_read_keeps_incomplete(s, s.block(b).predecessors[0], v);
    } else {
        let p = phis_build(s.phis, b).1;
        let built = s.with_phis(phis_build(s.phis, b).0);
        let written = write_var(built, b, v, SsaValue::Phi(p));
        lemma_write_phi_gains(s, b, v);
        assert(keeps_incomplete(s, written.0, v));
        if written.1 is Ok {
            lemma_add_phi_operands_keeps_incomplete(written.0, b, v, p);
            lemma_keeps_incomplete_transitive(
                s,
                written.0,
                add_phi_operands(written.0, b, v, p).0,
                v,
            );
        }
    }
}

/// The same of `add_phi_operands`.
pub proof fn lemma_add_phi_operands_keeps_incomplete(s: ProgramView, b: BlockId, v: VarId, p: PhiId)
    requires
        s.chains_end(v),
    ensures
        keeps_incomplete(s, add_phi_operands(s, b, v, p).0, v),
    decreases lacking(s.blocks, v), 3nat, 0nat, 0nat,
{
    if s.has_phi(p) {
        let owner = s.phi(p).block_id;
        match blocks_take_predecessors(s.blocks, owner).1 {
            None => {
                lemma_try_remove_extends(s, p);
            },
            Some(predecessors) => {
                let taken = s.with_blocks(blocks_take_predecessors(s.blocks, owner).0);
                assert(extends(s, taken));
                assert(keeps_incomplete(s, taken, v));
                lemma_extends_lacking(s, taken, v);
                lemma_extends_chains_end(s, taken, v);
                let filled = read_operands(taken, predecessors, 0, v, p);
                lemma_read_operands_keeps_incomplete(taken, predecessors, 0, v, p);
                lemma_keeps_incomplete_transitive(s, taken, filled.0, v);
                if filled.1 is Ok {
                    let restored = filled.0.with_blocks(
                        blocks_insert_predecessors(filled.0.blocks, owner, predecessors),
                    );
                    lemma_try_remove_extends(restored, p);
                    let last = try_remove_trivial_phi(restored, p).0;
                    assert forall|i: int|
                        0 <= i < s.blocks.len() && ((#[trigger] s.blocks[i]).sealed
                            || s.blocks[i].assignments.contains_key(v)) implies last.blocks[i].incomplete_phis
                        == s.blocks[i].incomplete_phis by {
                        assert(last.blocks[i].incomplete_phis == restored.blocks[i].incomplete_phis);
                        assert(filled.0.blocks[i].incomplete_phis == s.blocks[i].incomplete_phis);
                    }
                }
            },
        }
    }
}

/// The same of `read_operands`.
pub proof fn lemma_read_operands_keeps_incomplete(
    s: ProgramView,
    predecessors: Seq<BlockId>,
    i: int,
    v: VarId,
    p: PhiId,
)
    requires
        s.chains_end(v),
        0 <= i,
    ensures
        keeps_incomplete(s, read_operands(s, predecessors, i, v, p).0, v),
    decreases lacking(s.blocks, v), 2nat, predecessors.len() - i, 0nat,
{
    if i < predecessors.len() {
        lemma_read_extends(s, predecessors[i], v);
        lemma_read_keeps_incomplete(s, predecessors[i], v);
        let looked = read(s, predecessors[i], v);
        if looked.1 is Ok {
            let pushed = phis_push_operand(looked.0.phis, p, predecessors[i], v);
            if pushed.1 is Ok {
                let next = looked.0.with_phis(pushed.0);
                assert(extends(s, next));
                assert(keeps_incomplete(s, next, v));
                lemma_extends_lacking(s, next, v);
                lemma_extends_chains_end(s, next, v);
                lemma_read_operands_keeps_incomplete(next, predecessors, i + 1, v, p);
                lemma_keeps_incomplete_transitive(
                    s,
                    next,
                    read_operands(next, predecessors, i + 1, v, p).0,
                    v,
                );
            }
        }
    }
}

} // verus!
