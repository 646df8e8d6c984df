//! Which operands a read gives to which phi.
use vstd::prelude::*;

use crate::blocks::BlockId;
use crate::frame::extends;
use crate::frame::lemma_extends_chains_end;
use crate::frame::lemma_extends_lacking;
use crate::frame::lemma_read_extends;
use crate::frame::lemma_read_operands_extends;
use crate::frame::lemma_try_remove_extends;
use crate::frame::lemma_write_phi_gains;
use crate::frame::same_operands;
use crate::inst::SsaValue;
use crate::measure::lacking;
use crate::measure::lemma_rank_decreases;
use crate::model::blocks_insert_predecessors;
use crate::model::blocks_take_predecessors;
use crate::model::phis_build;
use crate::model::phis_push_operand;
use crate::model::ProgramView;
use crate::phi::PhiId;
use crate::program::VarId;
use crate::semantics::add_phi_operands;
use crate::semantics::read;
use crate::semantics::read_operands;
use crate::semantics::read_recursive;
use crate::semantics::try_remove_trivial_phi;
use crate::semantics::write_var;

verus! {

/// The operands of a phi for `v` in a block with these predecessors, from
/// the predecessor at position `from` on: each predecessor, with `v`.
pub open spec fn operands_for(predecessors: Seq<BlockId>, v: VarId, from: int) -> Seq<
    (BlockId, VarId),
> {
    Seq::new((predecessors.len() - from) as nat, |k: int| (predecessors[from + k], v))
}

/// Every phi of `before` but `p` belongs in `after` to the block that it
/// belonged to and has the operands that it had; `p` belongs to its block.
pub open spec fn same_operands_but(before: ProgramView, after: ProgramView, p: PhiId) -> bool {
    &&& after.phis.len() >= before.phis.len()
    &&& forall|q: int|
        0 <= q < before.phis.len() ==> (#[trigger] after.phis[q]).block_id
            == before.phis[q].block_id && (q != p.0 ==> after.phis[q].operands
            == before.phis[q].operands)
}

/// A read leaves the phis that there were with their operands.
pub proof fn lemma_read_same_operands(s: ProgramView, b: BlockId, v: VarId)
    requires
        s.chains_end(v),
        read(s, b, v).0.phis.len() <= usize::MAX,
    ensures
        same_operands(s, read(s, b, v).0),
    decreases lacking(s.blocks, v), 1nat, s.rank(v, b), 1nat,
{
    if s.has_block(b) && !s.holds(b, v) {
        lemma_read_recursive_same_operands(s, b, v);
    }
}

/// A read in a sealed block that has not exactly one predecessor gives the
/// phi that it makes one operand for each predecessor.
pub proof fn lemma_read_recursive_same_operands(s: ProgramView, b: BlockId, v: VarId)
    requires
        s.chains_end(v),
        !s.holds(b, v),
        read_recursive(s, b, v).0.phis.len() <= usize::MAX,
    ensures
        same_operands(s, read_recursive(s, b, v).0),
        s.is_sealed(b) && s.block(b).predecessors.len() != 1 && read_recursive(s, b, v).1 is Ok
            ==> ({
            let after = read_recursive(s, b, v).0;
            let p = PhiId(s.phis.len() as usize);
            &&& after.has_phi(p)
            &&& after.phi(p).block_id == b
            &&& after.phi(p).operands == operands_for(s.block(b).predecessors, v, 0)
        }),
    decreases lacking(s.blocks, v), 1nat, s.rank(v, b), 0nat,
{
    lemma_read_recursive_extends_len(s, b, v);
    if !s.is_sealed(b) {
    } else if s.block(b).predecessors.len() == 1 {
        lemma_rank_decreases(s, b, v);
        lemma_read_same_operands(s, s.block(b).predecessors[0], v);
    } else {
        let p = phis_build(s.phis, b).1;
        let built = s.with_phis(phis_build(s.phis, b).0);
        let written = write_var(built, b, v, SsaValue::Phi(p));
        lemma_write_phi_gains(s, b, v);
        assert(same_operands(s, written.0));
        if written.1 is Ok {
            lemma_add_phi_operands_same_operands(written.0, b, v, p);
            let last = add_phi_operands(written.0, b, v, p).0;
            assert forall|q: int| 0 <= q < s.phis.len() implies (#[trigger] last.phis[q]).block_id
                == s.phis[q].block_id && last.phis[q].operands == s.phis[q].operands by {
                assert(written.0.phis[q].operands == s.phis[q].operands);
            }
            if add_phi_operands(written.0, b, v, p).1 is Ok {
                assert(written.0.phi(p).operands =~= Seq::empty());
                assert(last.phi(p).operands =~= operands_for(s.block(b).predecessors, v, 0));
            }
        }
    }
}

/// The phis of the program before a read fit the machine if those after it
/// do.
proof fn lemma_read_recursive_extends_len(s: ProgramView, b: BlockId, v: VarId)
    requires
        s.chains_end(v),
        !s.holds(b, v),
    ensures
        s.phis.len() <= read_recursive(s, b, v).0.phis.len(),
{
    crate::frame::lemma_read_recursive_extends(s, b, v);
}

/// Giving a phi its operands appends one operand for each predecessor of
/// its block, and leaves the other phis with theirs.
pub proof fn lemma_add_phi_operands_same_operands(s: ProgramView, b: BlockId, v: VarId, p: PhiId)
    requires
        s.chains_end(v),
        add_phi_operands(s, b, v, p).0.phis.len() <= usize::MAX,
    ensures
        same_operands_but(s, add_phi_operands(s, b, v, p).0, p),
        s.has_phi(p) && add_phi_operands(s, b, v, p).1 is Ok ==> add_phi_operands(
            s,
            b,
            v,
            p,
        ).0.phi(p).operands == s.phi(p).operands + (if s.has_block(s.phi(p).block_id) {
            operands_for(s.block(s.phi(p).block_id).predecessors, v, 0)
        } else {
            Seq::empty()
        }),
    decreases lacking(s.blocks, v), 3nat, 0nat, 0nat,
{
    if s.has_phi(p) {
        let owner = s.phi(p).block_id;
        match blocks_take_predecessors(s.blocks, owner).1 {
            None => {
                lemma_try_remove_extends(s, p);
                assert(s.phi(p).operands + Seq::<(BlockId, VarId)>::empty() =~= s.phi(p).operands);
            },
            Some(predecessors) => {
                let taken = s.with_blocks(blocks_take_predecessors(s.blocks, owner).0);
                assert(extends(s, taken));
                lemma_extends_lacking(s, taken, v);
                lemma_extends_chains_end(s, taken, v);
                let filled = read_operands(taken, predecessors, 0, v, p);
                if filled.1 is Ok {
                    let restored = filled.0.with_blocks(
                        blocks_insert_predecessors(filled.0.blocks, owner, predecessors),
                    );
                    lemma_try_remove_extends(restored, p);
                    lemma_read_operands_same_operands(taken, predecessors, 0, v, p);
                    let last = try_remove_trivial_phi(restored, p).0;
                    assert forall|q: int| 0 <= q < s.phis.len() implies (
                    #[trigger] last.phis[q]).block_id == s.phis[q].block_id && (q != p.0
                        ==> last.phis[q].operands == s.phis[q].operands) by {
                        assert(restored.phis[q].block_id == taken.phis[q].block_id);
                    }
                    assert(last.phis[p.0 as int].operands == restored.phis[p.0 as int].operands);
                } else {
                    lemma_read_operands_same_operands(taken, predecessors, 0, v, p);
                }
            },
        }
    }
}

/// Reading the operands from position `i` on appends one operand for each
/// of these predecessors, and leaves the other phis with theirs.
pub proof fn lemma_read_operands_same_operands(
    s: ProgramView,
    predecessors: Seq<BlockId>,
    i: int,
    v: VarId,
    p: PhiId,
)
    requires
        s.chains_end(v),
        0 <= i,
        read_operands(s, predecessors, i, v, p).0.phis.len() <= usize::MAX,
    ensures
        same_operands_but(s, read_operands(s, predecessors, i, v, p).0, p),
        s.has_phi(p) && i <= predecessors.len() && read_operands(s, predecessors, i, v, p).1 is Ok
            ==> read_operands(s, predecessors, i, v, p).0.phi(p).operands == s.phi(p).operands
            + operands_for(predecessors, v, i),
    decreases lacking(s.blocks, v), 2nat, predecessors.len() - i, 0nat,
{
    if i < predecessors.len() {
        lemma_read_extends(s, predecessors[i], v);
        let looked = read(s, predecessors[i], v);
        if looked.1 is Ok {
            let pushed = phis_push_operand(looked.0.phis, p, predecessors[i], v);
            if pushed.1 is Ok {
                let next = looked.0.with_phis(pushed.0);
                assert(extends(s, next));
                lemma_extends_lacking(s, next, v);
                lemma_extends_chains_end(s, next, v);
                lemma_read_operands_extends(next, predecessors, i + 1, v, p);
                lemma_read_same_operands(s, predecessors[i], v);
                lemma_read_operands_same_operands(next, predecessors, i + 1, v, p);
                let last = read_operands(next, predecessors, i + 1, v, p);
                assert forall|q: int| 0 <= q < s.phis.len() implies (
                #[trigger] last.0.phis[q]).block_id == s.phis[q].block_id && (q != p.0
                    ==> last.0.phis[q].operands == s.phis[q].operands) by {
                    assert(next.phis[q].block_id == looked.0.phis[q].block_id);
                    assert(looked.0.phis[q].operands == s.phis[q].operands);
                }
                if s.has_phi(p) && last.1 is Ok {
                    assert(looked.0.phis[p.0 as int].operands == s.phis[p.0 as int].operands);
                    assert(next.phi(p).operands == s.phi(p).operands.push((predecessors[i], v)));
                    assert(s.phi(p).operands.push((predecessors[i], v)) + operands_for(
                        predecessors,
                        v,
                        i + 1,
                    ) =~= s.phi(p).operands + operands_for(predecessors, v, i));
                }
            } else {
                lemma_read_same_operands(s, predecessors[i], v);
            }
        } else {
            lemma_read_same_operands(s, predecessors[i], v);
        }
    } else {
        if i == predecessors.len() {
            assert(s.phi(p).operands + operands_for(predecessors, v, i) =~= s.phi(p).operands);
        }
    }
}

} // verus!
