//! What each operation on a program does, as a function on views.
//!
//! A read goes from block to block and changes the program on its way, so
//! the functions that make it up call each other with the program that the
//! call before has left. For such a definition to be well founded, it tests
//! before it goes on that no more blocks lack a value than before and that
//! the walks of the read still come to an end. These tests always succeed:
//! the lemmas whose names end in `unfolds` state each function without them.
use vstd::prelude::*;

use crate::blocks::BlockId;
use crate::consts::ConstId;
use crate::consts::ConstValue;
use crate::error::ErrorKind;
use crate::inst::SsaValue;
use crate::measure::lacking;
use crate::measure::lemma_rank_decreases;
use crate::measure::total_users;
use crate::model::blocks_add_predecessor;
use crate::model::blocks_block;
use crate::model::blocks_get_assignment;
use crate::model::blocks_insert_predecessors;
use crate::model::blocks_register_assignment;
use crate::model::blocks_register_incomplete_phi;
use crate::model::blocks_seal;
use crate::model::blocks_take_incomplete_phis;
use crate::model::blocks_take_predecessors;
use crate::model::Outcome;
use crate::model::phis_build;
use crate::model::phis_push_operand;
use crate::model::phis_register_use;
use crate::model::phis_take_users_of;
use crate::model::ProgramView;
use crate::phi::PhiId;
use crate::program::VarId;

verus! {

/// `Program::block`: a fresh block is added.
pub open spec fn block(s: ProgramView) -> (ProgramView, BlockId) {
    (s.with_blocks(blocks_block(s.blocks).0), blocks_block(s.blocks).1)
}

/// `Program::var`: the next variable is handed out.
pub open spec fn var(s: ProgramView) -> (ProgramView, VarId) {
    (ProgramView { var_id: (s.var_id + 1) as usize, ..s }, VarId(s.var_id))
}

/// `Program::add_predecessor`: `to` is appended to the predecessors of `from`.
pub open spec fn add_predecessor(s: ProgramView, from: BlockId, to: BlockId) -> (
    ProgramView,
    Outcome<()>,
) {
    (
        s.with_blocks(blocks_add_predecessor(s.blocks, from, to).0),
        blocks_add_predecessor(s.blocks, from, to).1,
    )
}

/// `Program::write_var`: the block holds `value` for `v`. Where `value` is a
/// phi, the slot is first registered as a user of it.
pub open spec fn write_var(s: ProgramView, b: BlockId, v: VarId, value: SsaValue) -> (
    ProgramView,
    Outcome<()>,
) {
    if !s.has_block(b) {
        (s, Err(ErrorKind::MissingBlock { block_id: b }))
    } else {
        let registered = match value {
            SsaValue::Phi(p) => phis_register_use(s.phis, p, b, v),
            _ => (s.phis, Ok(())),
        };
        match registered.1 {
            Err(e) => (s, Err(e)),
            Ok(_) => (
                ProgramView {
                    phis: registered.0,
                    blocks: blocks_register_assignment(s.blocks, b, v, value).0,
                    rerouted: s.rerouted.remove((b, v)),
                    ..s
                },
                Ok(()),
            ),
        }
    }
}

/// `Program::write`: a fresh variable is handed out, and `value` is written
/// to `v`.
pub open spec fn write(s: ProgramView, b: BlockId, v: VarId, value: SsaValue) -> (
    ProgramView,
    Outcome<VarId>,
) {
    let written = write_var(var(s).0, b, v, value);
    (
        written.0,
        match written.1 {
            Ok(_) => Ok(var(s).1),
            Err(e) => Err(e),
        },
    )
}

/// `Program::write_constant`: the constant is appended to the pool and
/// written to `v`.
pub open spec fn write_constant(s: ProgramView, b: BlockId, v: VarId, constant: ConstValue) -> (
    ProgramView,
    Outcome<()>,
) {
    write_var(
        ProgramView { consts: s.consts.push(constant), ..s },
        b,
        v,
        SsaValue::Const(ConstId(s.consts.len() as usize)),
    )
}

/// What looking through the operands of a phi finds.
pub enum Verdict {
    /// All operands that are not the phi itself hold one value, or none
    /// holds any: the phi is trivial.
    Trivial(Option<SsaValue>),
    /// Two operands hold different values: the phi merges them.
    Merges,
}

/// Look through the operands from position `i` on, with `same` the one value
/// found so far.
pub open spec fn scan_operands(
    s: ProgramView,
    operands: Seq<(BlockId, VarId)>,
    i: int,
    same: Option<SsaValue>,
    p: PhiId,
) -> Outcome<Verdict>
    decreases operands.len() - i,
{
    if i < 0 || i >= operands.len() {
        Ok(Verdict::Trivial(same))
    } else {
        match blocks_get_assignment(s.blocks, operands[i].0, operands[i].1) {
            Err(e) => Err(e),
            Ok(value) => if same == Some(value) || value == SsaValue::Phi(p) {
                scan_operands(s, operands, i + 1, same, p)
            } else if same is Some {
                Ok(Verdict::Merges)
            } else {
                scan_operands(s, operands, i + 1, Some(value), p)
            },
        }
    }
}

/// The slot is among the users, and its block holds a value for its variable.
pub open spec fn is_held_user(s: ProgramView, users: Seq<(BlockId, VarId)>, slot: (
    BlockId,
    VarId,
)) -> bool {
    users.contains(slot) && s.holds(slot.0, slot.1)
}

/// Every slot among the users that holds a value holds `same` instead.
pub open spec fn replace_uses(s: ProgramView, users: Seq<(BlockId, VarId)>, same: SsaValue) -> ProgramView {
    let held = Set::new(|slot: (BlockId, VarId)| is_held_user(s, users, slot));
    ProgramView {
        blocks: Seq::new(
            s.blocks.len(),
            |i: int|
                s.blocks[i].with_assignments(
                    Map::new(
                        |v: VarId| s.blocks[i].assignments.contains_key(v),
                        |v: VarId|
                            if users.contains((BlockId(i as usize), v)) {
                                same
                            } else {
                                s.blocks[i].assignments[v]
                            },
                    ),
                ),
        ),
        rerouted: if same is Phi {
            s.rerouted.union(held)
        } else {
            s.rerouted.difference(held)
        },
        ..s
    }
}

/// The phi that may have become trivial when the users of `p` were given
/// `same`: `same` itself, where it is another phi and one of the users holds
/// it now.
pub open spec fn cascade_target(
    s: ProgramView,
    users: Seq<(BlockId, VarId)>,
    same: SsaValue,
    p: PhiId,
) -> Option<PhiId> {
    match same {
        SsaValue::Phi(q) => if q != p && exists|i: int|
            0 <= i < users.len() && #[trigger] s.holds(users[i].0, users[i].1) {
            Some(q)
        } else {
            None
        },
        _ => None,
    }
}

/// `Program::try_remove_trivial_phi`: where the operands of `p` that are not
/// `p` itself all hold one value, every user of `p` is given that value
/// (`Undef` where there is none), `p` loses its users, and the value, if it
/// is a phi that a user now holds, is tried in turn.
pub open spec fn try_remove_trivial_phi(s: ProgramView, p: PhiId) -> (
    ProgramView,
    Outcome<SsaValue>,
)
    decreases total_users(s.phis),
{
    if !s.has_phi(p) {
        (s, Err(ErrorKind::MissingPhi { phi_id: p }))
    } else {
        match scan_operands(s, s.phi(p).operands, 0, None, p) {
            Err(e) => (s, Err(e)),
            Ok(Verdict::Merges) => (s, Ok(SsaValue::Phi(p))),
            Ok(Verdict::Trivial(found)) => {
                let same = match found {
                    Some(value) => value,
                    None => SsaValue::Undef,
                };
                let users = s.phi(p).users;
                let taken = s.with_phis(phis_take_users_of(s.phis, p).0);
                let replaced = replace_uses(taken, users, same);
                match cascade_target(replaced, users, same, p) {
                    None => (replaced, Ok(same)),
                    Some(q) => {
                        if total_users(replaced.phis) < total_users(s.phis) {
                            let next = try_remove_trivial_phi(replaced, q);
                            match next.1 {
                                Err(e) => (next.0, Err(e)),
                                Ok(_) => (next.0, Ok(same)),
                            }
                        } else {
                            (replaced, Ok(same))
                        }
                    },
                }
            },
        }
    }
}

/// The state after an incomplete phi was made for a read of `v` in the open
/// block `b`: the phi is built, recorded as waiting for the seal, and has the
/// slot as its user. The block is given no value.
pub open spec fn defer_phi(s: ProgramView, b: BlockId, v: VarId) -> (
    ProgramView,
    Outcome<SsaValue>,
) {
    let p = phis_build(s.phis, b).1;
    let built = s.with_phis(phis_build(s.phis, b).0);
    let recorded = blocks_register_incomplete_phi(built.blocks, b, v, SsaValue::Phi(p));
    match recorded.1 {
        Err(e) => (built, Err(e)),
        Ok(_) => {
            let used = phis_register_use(built.phis, p, b, v);
            match used.1 {
                Err(e) => (built.with_blocks(recorded.0), Err(e)),
                Ok(_) => (
                    built.with_blocks(recorded.0).with_phis(used.0),
                    Ok(SsaValue::Phi(p)),
                ),
            }
        },
    }
}

/// `Program::read`: the value of `v` in `b`. What the block holds is
/// returned as it is; else the value is looked for in the predecessors.
pub open spec fn read(s: ProgramView, b: BlockId, v: VarId) -> (ProgramView, Outcome<SsaValue>)
    decreases lacking(s.blocks, v), 1nat, s.rank(v, b), 1nat,
    when s.chains_end(v)
{
    if !s.has_block(b) {
        (s, Err(ErrorKind::MissingBlock { block_id: b }))
    } else if s.holds(b, v) {
        (s, Ok(s.value(b, v)))
    } else {
        read_recursive(s, b, v)
    }
}

/// `Program::read_recursive`: the value of `v` in a block that holds none.
/// An open block gets an incomplete phi. A sealed block with one predecessor
/// hands the read on to it. Any other sealed block gets a phi as its value,
/// whose operands are then read from its predecessors.
pub open spec fn read_recursive(s: ProgramView, b: BlockId, v: VarId) -> (
    ProgramView,
    Outcome<SsaValue>,
)
    decreases lacking(s.blocks, v), 1nat, s.rank(v, b), 0nat,
    when s.chains_end(v) && !s.holds(b, v)
{
    if !s.is_sealed(b) {
        defer_phi(s, b, v)
    } else if s.block(b).predecessors.len() == 1 {
        proof {
            lemma_rank_decreases(s, b, v);
        }
        read(s, s.block(b).predecessors[0], v)
    } else {
        let p = phis_build(s.phis, b).1;
        let built = s.with_phis(phis_build(s.phis, b).0);
        let written = write_var(built, b, v, SsaValue::Phi(p));
        match written.1 {
            Err(e) => (written.0, Err(e)),
            Ok(_) => {
                if lacking(written.0.blocks, v) < lacking(s.blocks, v) && written.0.chains_end(v) {
                    add_phi_operands(written.0, b, v, p)
                } else {
                    (written.0, Ok(SsaValue::Phi(p)))
                }
            },
        }
    }
}

/// `Program::add_phi_operands`: the predecessors of the block that owns `p`
/// are taken out, `v` is read in each and named as an operand of `p`, the
/// predecessors are put back, and `p` is tried for triviality.
pub open spec fn add_phi_operands(s: ProgramView, b: BlockId, v: VarId, p: PhiId) -> (
    ProgramView,
    Outcome<SsaValue>,
)
    decreases lacking(s.blocks, v), 3nat, 0nat, 0nat,
    when s.chains_end(v)
{
    if !s.has_phi(p) {
        (s, Err(ErrorKind::MissingPhi { phi_id: p }))
    } else {
        let owner = s.phi(p).block_id;
        match blocks_take_predecessors(s.blocks, owner).1 {
            None => try_remove_trivial_phi(s, p),
            Some(predecessors) => {
                let taken = s.with_blocks(blocks_take_predecessors(s.blocks, owner).0);
                if lacking(taken.blocks, v) <= lacking(s.blocks, v) && taken.chains_end(v) {
                    let filled = read_operands(taken, predecessors, 0, v, p);
                    match filled.1 {
                        Err(e) => (filled.0, Err(e)),
                        Ok(_) => try_remove_trivial_phi(
                            filled.0.with_blocks(
                                blocks_insert_predecessors(filled.0.blocks, owner, predecessors),
                            ),
                            p,
                        ),
                    }
                } else {
                    (taken, Ok(SsaValue::Phi(p)))
                }
            },
        }
    }
}

/// The part of `add_phi_operands` that goes through the predecessors from
/// position `i` on: `v` is read in each, and each is named as an operand of
/// `p`.
pub open spec fn read_operands(
    s: ProgramView,
    predecessors: Seq<BlockId>,
    i: int,
    v: VarId,
    p: PhiId,
) -> (ProgramView, Outcome<()>)
    decreases lacking(s.blocks, v), 2nat, predecessors.len() - i, 0nat,
    when s.chains_end(v) && 0 <= i
{
    if i >= predecessors.len() {
        (s, Ok(()))
    } else {
        let looked = read(s, predecessors[i], v);
        match looked.1 {
            Err(e) => (looked.0, Err(e)),
            Ok(_) => {
                let pushed = phis_push_operand(looked.0.phis, p, predecessors[i], v);
                match pushed.1 {
                    Err(e) => (looked.0, Err(e)),
                    Ok(_) => {
                        let next = looked.0.with_phis(pushed.0);
                        if lacking(next.blocks, v) <= lacking(s.blocks, v) && next.chains_end(v) {
                            read_operands(next, predecessors, i + 1, v, p)
                        } else {
                            (next, Ok(()))
                        }
                    },
                }
            },
        }
    }
}

/// The part of `seal` that goes through the incomplete phis from position
/// `i` on: each is given its operands. An entry that is no phi is an error.
pub open spec fn complete_phis(
    s: ProgramView,
    b: BlockId,
    entries: Seq<(VarId, SsaValue)>,
    i: int,
) -> (ProgramView, Outcome<()>)
    decreases entries.len() - i,
{
    if i < 0 || i >= entries.len() {
        (s, Ok(()))
    } else {
        match entries[i].1 {
            SsaValue::Phi(p) => {
                let added = add_phi_operands(s, b, entries[i].0, p);
                match added.1 {
                    Err(e) => (added.0, Err(e)),
                    Ok(_) => complete_phis(added.0, b, entries, i + 1),
                }
            },
            value => (s, Err(ErrorKind::IncompletePhiNode { block_id: b, value })),
        }
    }
}

/// `Program::seal`: the incomplete phis of the block are taken and given
/// their operands, in the order in which they were registered; then the
/// block is sealed.
pub open spec fn seal(s: ProgramView, b: BlockId) -> (ProgramView, Outcome<()>) {
    let entries = blocks_take_incomplete_phis(s.blocks, b).1;
    let taken = s.with_blocks(blocks_take_incomplete_phis(s.blocks, b).0);
    let completed = complete_phis(taken, b, entries, 0);
    match completed.1 {
        Err(e) => (completed.0, Err(e)),
        Ok(_) => (
            completed.0.with_blocks(blocks_seal(completed.0.blocks, b).0),
            blocks_seal(completed.0.blocks, b).1,
        ),
    }
}

} // verus!
