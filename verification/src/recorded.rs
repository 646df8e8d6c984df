//! The users of a phi and the slots that hold it.
use vstd::prelude::*;

use crate::blocks::BlockId;
use crate::frame::extends;
use crate::frame::lemma_cascade_takes_users;
use crate::frame::lemma_extends_chains_end;
use crate::frame::lemma_extends_lacking;
use crate::frame::lemma_read_extends;
use crate::frame::lemma_write_phi_gains;
use crate::inst::SsaValue;
use crate::measure::lacking;
use crate::measure::lemma_rank_decreases;
use crate::measure::total_users;
use crate::model::blocks_get_assignment;
use crate::model::blocks_insert_predecessors;
use crate::model::blocks_take_predecessors;
use crate::model::phis_build;
use crate::model::phis_push_operand;
use crate::model::phis_take_users_of;
use crate::model::ProgramView;
use crate::phi::PhiId;
use crate::program::VarId;
use crate::semantics::add_phi_operands;
use crate::semantics::cascade_target;
use crate::semantics::defer_phi;
use crate::semantics::read;
use crate::semantics::read_operands;
use crate::semantics::read_recursive;
use crate::semantics::replace_uses;
use crate::semantics::scan_operands;
use crate::semantics::try_remove_trivial_phi;
use crate::semantics::Verdict;
use crate::semantics::write_var;

verus! {

/// The slot holds no phi, or a phi that exists and has the slot among its
/// users, unless the phi was put there in place of a trivial one.
pub open spec fn use_is_recorded(s: ProgramView, b: BlockId, v: VarId) -> bool {
    match s.value(b, v) {
        SsaValue::Phi(p) => s.has_phi(p) && (s.phi(p).users.contains((b, v))
            || s.rerouted.contains((b, v))),
        _ => true,
    }
}

/// Every phi that a block holds as the value of a variable exists and has
/// that slot among its users, unless the phi was put there in place of a
/// trivial one.
pub open spec fn uses_are_recorded(s: ProgramView) -> bool {
    forall|b: BlockId, v: VarId| #[trigger] s.holds(b, v) ==> use_is_recorded(s, b, v)
}

/// A program that differs only in the predecessors and the incomplete phis
/// of its blocks and in the operands of its phis records the same uses.
pub proof fn lemma_recorded_by_same_slots(before: ProgramView, after: ProgramView)
    requires
        uses_are_recorded(before),
        after.blocks.len() == before.blocks.len(),
        forall|i: int|
            0 <= i < before.blocks.len() ==> (#[trigger] after.blocks[i]).assignments
                == before.blocks[i].assignments,
        after.phis.len() >= before.phis.len(),
        forall|q: int|
            0 <= q < before.phis.len() ==> (#[trigger] after.phis[q]).users
                == before.phis[q].users,
        after.rerouted == before.rerouted,
    ensures
        uses_are_recorded(after),
{
    assert forall|b: BlockId, v: VarId| #[trigger] after.holds(b, v) implies use_is_recorded(
        after,
        b,
        v,
    ) by {
        assert(before.holds(b, v));
        assert(use_is_recorded(before, b, v));
        assert(after.blocks[b.0 as int].assignments == before.blocks[b.0 as int].assignments);
        match before.value(b, v) {
            SsaValue::Phi(p) => {
                assert(after.phis[p.0 as int].users == before.phis[p.0 as int].users);
            },
            _ => {},
        }
    }
}

/// A write records the use of the phi that it writes.
pub proof fn lemma_write_var_records(s: ProgramView, b: BlockId, v: VarId, value: SsaValue)
    requires
        uses_are_recorded(s),
    ensures
        uses_are_recorded(write_var(s, b, v, value).0),
{
    let after = write_var(s, b, v, value).0;
    if write_var(s, b, v, value).1 is Ok {
        assert forall|c: BlockId, w: VarId| #[trigger] after.holds(c, w) implies use_is_recorded(
            after,
            c,
            w,
        ) by {
            if c == b && w == v {
                match value {
                    SsaValue::Phi(p) => {
                        let users = s.phi(p).users.push((b, v));
                        assert(users[users.len() - 1] == (b, v));
                    },
                    _ => {},
                }
            } else {
                assert(s.holds(c, w));
                assert(use_is_recorded(s, c, w));
                match s.value(c, w) {
                    SsaValue::Phi(q) => {
                        if s.phi(q).users.contains((c, w)) {
                            let k = choose|k: int|
                                0 <= k < s.phi(q).users.len() && s.phi(q).users[k] == (c, w);
                            assert(after.phi(q).users[k] == (c, w));
                        }
                    },
                    _ => {},
                }
            }
        }
    }
}

/// The value that the operands of a trivial phi hold is the value of a slot.
proof fn lemma_scan_finds_a_value(
    s: ProgramView,
    operands: Seq<(BlockId, VarId)>,
    i: int,
    same: Option<SsaValue>,
    p: PhiId,
)
    requires
        0 <= i,
        same is Some ==> exists|b: BlockId, v: VarId| #[trigger]
            s.holds(b, v) && s.value(b, v) == same->Some_0,
    ensures
        match scan_operands(s, operands, i, same, p) {
            Ok(Verdict::Trivial(Some(value))) => exists|b: BlockId, v: VarId| #[trigger]
                s.holds(b, v) && s.value(b, v) == value,
            _ => true,
        },
    decreases operands.len() - i,
{
    if i < operands.len() {
        match blocks_get_assignment(s.blocks, operands[i].0, operands[i].1) {
            Err(e) => {},
            Ok(value) => {
                if same == Some(value) || value == SsaValue::Phi(p) {
                    lemma_scan_finds_a_value(s, operands, i + 1, same, p);
                } else if same is Some {
                } else {
                    assert(s.holds(operands[i].0, operands[i].1));
                    lemma_scan_finds_a_value(s, operands, i + 1, Some(value), p);
                }
            },
        }
    }
}

/// Trivial phi removal keeps the uses recorded: the slots that it gives
/// another phi are those that it notes as rerouted.
pub proof fn lemma_try_remove_records(s: ProgramView, p: PhiId)
    requires
        uses_are_recorded(s),
    ensures
        uses_are_recorded(try_remove_trivial_phi(s, p).0),
    decreases total_users(s.phis),
{
    if s.has_phi(p) {
        match scan_operands(s, s.phi(p).operands, 0, None, p) {
            Ok(Verdict::Trivial(found)) => {
                let same = match found {
                    Some(value) => value,
                    None => SsaValue::Undef,
                };
                let users = s.phi(p).users;
                let taken = s.with_phis(phis_take_users_of(s.phis, p).0);
                let replaced = replace_uses(taken, users, same);
                lemma_scan_finds_a_value(s, s.phi(p).operands, 0, None, p);
                if let SsaValue::Phi(q) = same {
                    let (sb, sv) = choose|b: BlockId, v: VarId| #[trigger]
                        s.holds(b, v) && s.value(b, v) == same;
                    assert(use_is_recorded(s, sb, sv));
                    assert(s.has_phi(q));
                }
                assert forall|b: BlockId, v: VarId| #[trigger]
                    replaced.holds(b, v) implies use_is_recorded(replaced, b, v) by {
                    assert(s.holds(b, v));
                    assert(use_is_recorded(s, b, v));
                    assert(BlockId(b.0 as int as usize) == b);
                    if users.contains((b, v)) {
                        assert(replaced.value(b, v) == same);
                        assert(crate::semantics::is_held_user(taken, users, (b, v)));
                    } else {
                        assert(replaced.value(b, v) == s.value(b, v));
                        assert(!crate::semantics::is_held_user(taken, users, (b, v)));
                        match s.value(b, v) {
                            SsaValue::Phi(other) => {
                                if other != p {
                                    assert(replaced.phi(other).users == s.phi(other).users);
                                }
                            },
                            _ => {},
                        }
                    }
                }
                match cascade_target(replaced, users, same, p) {
                    None => {},
                    Some(q) => {
                        lemma_cascade_takes_users(s, p, same);
                        lemma_try_remove_records(replaced, q);
                    },
                }
            },
            _ => {},
        }
    }
}

/// A read keeps the uses recorded, whatever it returns.
pub proof fn lemma_read_records(s: ProgramView, b: BlockId, v: VarId)
    requires
        s.chains_end(v),
        uses_are_recorded(s),
    ensures
        uses_are_recorded(read(s, b, v).0),
    decreases lacking(s.blocks, v), 1nat, s.rank(v, b), 1nat,
{
    if s.has_block(b) && !s.holds(b, v) {
        lemma_read_recursive_records(s, b, v);
    }
}

/// The same of `read_recursive`.
pub proof fn lemma_read_recursive_records(s: ProgramView, b: BlockId, v: VarId)
    requires
        s.chains_end(v),
        !s.holds(b, v),
        uses_are_recorded(s),
    ensures
        uses_are_recorded(read_recursive(s, b, v).0),
    decreases lacking(s.blocks, v), 1nat, s.rank(v, b), 0nat,
{
    if !s.is_sealed(b) {
        let after = defer_phi(s, b, v).0;
        assert forall|c: BlockId, w: VarId| #[trigger] after.holds(c, w) implies use_is_recorded(
            after,
            c,
            w,
        ) by {
            assert(s.holds(c, w));
            assert(use_is_recorded(s, c, w));
            match s.value(c, w) {
                SsaValue::Phi(q) => {
                    if s.phi(q).users.contains((c, w)) {
                        let k = choose|k: int|
                            0 <= k < s.phi(q).users.len() && s.phi(q).users[k] == (c, w);
                        assert(after.phi(q).users[k] == (c, w));
                    }
                },
                _ => {},
            }
        }
    } else if s.block(b).predecessors.len() == 1 {
        lemma_rank_decreases(s, b, v);
        lemma_read_records(s, s.block(b).predecessors[0], v);
    } else {
        let p = phis_build(s.phis, b).1;
        let built = s.with_phis(phis_build(s.phis, b).0);
        let written = write_var(built, b, v, SsaValue::Phi(p));
        lemma_write_phi_gains(s, b, v);
        lemma_recorded_by_same_slots(s, built);
        lemma_write_var_records(built, b, v, SsaValue::Phi(p));
        if written.1 is Ok {
            lemma_add_phi_operands_records(written.0, b, v, p);
        }
    }
}

/// The same of `add_phi_operands`.
pub proof fn lemma_add_phi_operands_records(s: ProgramView, b: BlockId, v: VarId, p: PhiId)
    requires
        s.chains_end(v),
        uses_are_recorded(s),
    ensures
        uses_are_recorded(add_phi_operands(s, b, v, p).0),
    decreases lacking(s.blocks, v), 3nat, 0nat, 0nat,
{
    if s.has_phi(p) {
        let owner = s.phi(p).block_id;
        match blocks_take_predecessors(s.blocks, owner).1 {
            None => {
                lemma_try_remove_records(s, p);
            },
            Some(predecessors) => {
                let taken = s.with_blocks(blocks_take_predecessors(s.blocks, owner).0);
                assert(extends(s, taken));
                lemma_extends_lacking(s, taken, v);
                lemma_extends_chains_end(s, taken, v);
                lemma_recorded_by_same_slots(s, taken);
                let filled = read_operands(taken, predecessors, 0, v, p);
                lemma_read_operands_records(taken, predecessors, 0, v, p);
                if filled.1 is Ok {
                    let restored = filled.0.with_blocks(
                        blocks_insert_predecessors(filled.0.blocks, owner, predecessors),
                    );
                    lemma_recorded_by_same_slots(filled.0, restored);
                    lemma_try_remove_records(restored, p);
                }
            },
        }
    }
}

/// The same of `read_operands`.
pub proof fn lemma_read_operands_records(
    s: ProgramView,
    predecessors: Seq<BlockId>,
    i: int,
    v: VarId,
    p: PhiId,
)
    requires
        s.chains_end(v),
        0 <= i,
        uses_are_recorded(s),
    ensures
        uses_are_recorded(read_operands(s, predecessors, i, v, p).0),
    decreases lacking(s.blocks, v), 2nat, predecessors.len() - i, 0nat,
{
    if i < predecessors.len() {
        lemma_read_extends(s, predecessors[i], v);
        lemma_read_records(s, predecessors[i], v);
        let looked = read(s, predecessors[i], v);
        if looked.1 is Ok {
            let pushed = phis_push_operand(looked.0.phis, p, predecessors[i], v);
            if pushed.1 is Ok {
                let next = looked.0.with_phis(pushed.0);
                assert(extends(s, next));
                lemma_extends_lacking(s, next, v);
                lemma_extends_chains_end(s, next, v);
                lemma_recorded_by_same_slots(looked.0, next);
                lemma_read_operands_records(next, predecessors, i + 1, v, p);
            }
        }
    }
}

} // verus!
