//! What holds of every program, stated over the model and proved.
use vstd::prelude::*;

use crate::semantics;
use crate::blocks::BlockId;
use crate::consts::ConstValue;
use crate::frame::extends;
use crate::frame::lemma_add_phi_operands_extends;
use crate::frame::lemma_extends_chains_end;
use crate::frame::lemma_extends_transitive;
use crate::frame::lemma_read_extends;
use crate::frame::same_operands;
use crate::frame::same_predecessors;
use crate::inst::SsaValue;
use crate::measure::lemma_rank_decreases;
use crate::model::blocks_take_incomplete_phis;
use crate::model::ProgramView;
use crate::operands::lemma_add_phi_operands_same_operands;
use crate::operands::lemma_read_recursive_same_operands;
use crate::operands::operands_for;
use crate::pending::lemma_add_phi_operands_keeps_incomplete;
use crate::pending::lemma_read_keeps_incomplete;
use crate::phi::PhiId;
use crate::program::VarId;
use crate::recorded::lemma_add_phi_operands_records;
use crate::recorded::lemma_read_records;
use crate::recorded::lemma_recorded_by_same_slots;
use crate::recorded::lemma_write_var_records;
use crate::recorded::use_is_recorded;
use crate::recorded::uses_are_recorded;
use crate::semantics::add_phi_operands;
use crate::semantics::complete_phis;
use crate::semantics::read;
use crate::settle::keeps_empty;
use crate::settle::kept_empty;
use crate::settle::lemma_read_keeps_empty;
use crate::settle::stays_empty;

verus! {

/// The block at which a read of `v` that starts in `b` stops going on to the
/// only predecessor.
pub open spec fn stops_at(s: ProgramView, b: BlockId, v: VarId) -> BlockId
    decreases s.rank(v, b),
    when s.chains_end(v)
{
    if s.passes_through(b, v) {
        proof {
            lemma_rank_decreases(s, b, v);
        }
        stops_at(s, s.block(b).predecessors[0], v)
    } else {
        b
    }
}

/// A read in a sealed block that has exactly one predecessor and holds no
/// value for the variable is the read of the variable in that predecessor:
/// it makes no phi of its own, and where the predecessor holds a value the
/// program stays as it is.
pub proof fn law_read_through_only_predecessor(s: ProgramView, b: BlockId, v: VarId)
    requires
        s.chains_end(v),
        s.passes_through(b, v),
    ensures
        read(s, b, v) == read(s, s.block(b).predecessors[0], v),
        s.holds(s.block(b).predecessors[0], v) ==> read(s, b, v) == (
            s,
            Ok::<SsaValue, crate::error::ErrorKind>(s.value(s.block(b).predecessors[0], v)),
        ),
{
    let predecessor = s.block(b).predecessors[0];
    if s.holds(predecessor, v) {
        assert(read(s, predecessor, v).0 == s);
    }
}

/// A read is the read in the block at which it stops.
pub proof fn lemma_read_stops_at(s: ProgramView, b: BlockId, v: VarId)
    requires
        s.chains_end(v),
    ensures
        read(s, b, v) == read(s, stops_at(s, b, v), v),
        !s.passes_through(stops_at(s, b, v), v),
    decreases s.rank(v, b),
{
    if s.passes_through(b, v) {
        lemma_rank_decreases(s, b, v);
        lemma_read_stops_at(s, s.block(b).predecessors[0], v);
    }
}

/// Where a later program has kept the blocks that a read passes through, the
/// read stops at the same block in it.
proof fn lemma_read_stops_at_later(s: ProgramView, later: ProgramView, b: BlockId, v: VarId)
    requires
        s.chains_end(v),
        later.chains_end(v),
        keeps_empty(s, later, v),
    ensures
        read(later, b, v) == read(later, stops_at(s, b, v), v),
    decreases s.rank(v, b),
{
    if s.passes_through(b, v) {
        lemma_rank_decreases(s, b, v);
        assert(stays_empty(s, b, v));
        assert(kept_empty(s, later, b, v));
        assert(later.passes_through(b, v));
        lemma_read_stops_at_later(s, later, s.block(b).predecessors[0], v);
    }
}

/// Two reads in a row return the same value, and the second changes
/// nothing, where the first has left the value that it returned in the block
/// at which it stopped.
///
/// A read that stops at an open block leaves no value there, and the next
/// read makes another phi.
pub proof fn law_read_is_idempotent(s: ProgramView, b: BlockId, v: VarId)
    requires
        s.chains_end(v),
        read(s, b, v).0.phis.len() <= usize::MAX,
        read(s, b, v).1 is Ok,
        read(s, b, v).0.holds(stops_at(s, b, v), v),
        read(s, b, v).0.value(stops_at(s, b, v), v) == read(s, b, v).1->Ok_0,
    ensures
        read(s, b, v).0.chains_end(v),
        read(read(s, b, v).0, b, v) == read(s, b, v),
{
    let first = read(s, b, v);
    lemma_read_extends(s, b, v);
    lemma_extends_chains_end(s, first.0, v);
    lemma_read_keeps_empty(s, b, v);
    lemma_read_stops_at_later(s, first.0, b, v);
}

/// Two reads in a row return different values where the first stops at an
/// open block that holds no value for the variable.
pub proof fn law_read_of_open_block_is_not_idempotent(s: ProgramView, b: BlockId, v: VarId)
    requires
        s.chains_end(v),
        s.has_block(stops_at(s, b, v)),
        !s.block(stops_at(s, b, v)).sealed,
        !s.holds(stops_at(s, b, v), v),
        read(s, b, v).0.phis.len() < usize::MAX,
    ensures
        read(s, b, v).1 == Ok::<SsaValue, crate::error::ErrorKind>(
            SsaValue::Phi(crate::phi::PhiId(s.phis.len() as usize)),
        ),
        read(read(s, b, v).0, b, v).1 == Ok::<SsaValue, crate::error::ErrorKind>(
            SsaValue::Phi(crate::phi::PhiId((s.phis.len() + 1) as usize)),
        ),
{
    let e = stops_at(s, b, v);
    let first = read(s, b, v);
    lemma_read_stops_at(s, b, v);
    lemma_read_extends(s, b, v);
    lemma_extends_chains_end(s, first.0, v);
    lemma_read_keeps_empty(s, b, v);
    lemma_read_stops_at_later(s, first.0, b, v);
    assert(stays_empty(s, e, v));
    assert(kept_empty(s, first.0, e, v));
}

/// No sealed block has an incomplete phi.
pub open spec fn sealed_blocks_are_complete(s: ProgramView) -> bool {
    forall|i: int|
        0 <= i < s.blocks.len() && (#[trigger] s.blocks[i]).sealed
            ==> s.blocks[i].incomplete_phis.len() == 0
}

/// In a new program, and after a block or a variable was defined, a
/// predecessor added or a value written, no sealed block has an incomplete
/// phi, if none had one before.
pub proof fn law_sealed_blocks_stay_complete(
    s: ProgramView,
    b: BlockId,
    to: BlockId,
    v: VarId,
    value: SsaValue,
    constant: ConstValue,
)
    requires
        sealed_blocks_are_complete(s),
    ensures
        sealed_blocks_are_complete(ProgramView::empty()),
        sealed_blocks_are_complete(semantics::block(s).0),
        sealed_blocks_are_complete(semantics::var(s).0),
        sealed_blocks_are_complete(semantics::add_predecessor(s, b, to).0),
        sealed_blocks_are_complete(semantics::write_var(s, b, v, value).0),
        sealed_blocks_are_complete(semantics::write(s, b, v, value).0),
        sealed_blocks_are_complete(semantics::write_constant(s, b, v, constant).0),
{
    let defined = semantics::block(s).0;
    assert forall|i: int| 0 <= i < defined.blocks.len() && (#[trigger] defined.blocks[i]).sealed
        implies defined.blocks[i].incomplete_phis.len() == 0 by {
        if i < s.blocks.len() {
            assert(defined.blocks[i] == s.blocks[i]);
        }
    }
    let added = semantics::add_predecessor(s, b, to).0;
    assert forall|i: int| 0 <= i < added.blocks.len() && (#[trigger] added.blocks[i]).sealed
        implies added.blocks[i].incomplete_phis.len() == 0 by {
        assert(added.blocks[i].sealed == s.blocks[i].sealed);
    }
    lemma_write_keeps_complete(s, b, v, value);
    lemma_write_keeps_complete(semantics::var(s).0, b, v, value);
    let interned = ProgramView { consts: s.consts.push(constant), ..s };
    lemma_write_keeps_complete(
        interned,
        b,
        v,
        SsaValue::Const(crate::consts::ConstId(s.consts.len() as usize)),
    );
}

/// A write gives no block an incomplete phi and seals none.
proof fn lemma_write_keeps_complete(s: ProgramView, b: BlockId, v: VarId, value: SsaValue)
    requires
        sealed_blocks_are_complete(s),
    ensures
        sealed_blocks_are_complete(semantics::write_var(s, b, v, value).0),
{
    let written = semantics::write_var(s, b, v, value).0;
    assert forall|i: int| 0 <= i < written.blocks.len() && (#[trigger] written.blocks[i]).sealed
        implies written.blocks[i].incomplete_phis.len() == 0 by {
        assert(written.blocks[i].sealed == s.blocks[i].sealed);
    }
}

/// After a read, whatever it returned, no sealed block has an incomplete
/// phi, if none had one before.
pub proof fn law_read_keeps_sealed_blocks_complete(s: ProgramView, b: BlockId, v: VarId)
    requires
        s.chains_end(v),
        sealed_blocks_are_complete(s),
    ensures
        sealed_blocks_are_complete(read(s, b, v).0),
{
    let after = read(s, b, v).0;
    lemma_read_extends(s, b, v);
    lemma_read_keeps_incomplete(s, b, v);
    assert forall|i: int| 0 <= i < after.blocks.len() && (#[trigger] after.blocks[i]).sealed
        implies after.blocks[i].incomplete_phis.len() == 0 by {
        assert(s.blocks[i].sealed);
    }
}

/// The block holds a value for the variable of each of the entries, and the
/// reads of each of these variables come to an end.
pub open spec fn entries_are_written(
    s: ProgramView,
    b: BlockId,
    entries: Seq<(VarId, SsaValue)>,
) -> bool {
    forall|j: int|
        0 <= j < entries.len() ==> s.holds(b, (#[trigger] entries[j]).0) && s.chains_end(
            entries[j].0,
        )
}

/// Completing the phis of a block that holds a value for each of their
/// variables registers no incomplete phi in that block or in a sealed one.
proof fn lemma_complete_phis_keeps_incomplete(
    s: ProgramView,
    b: BlockId,
    entries: Seq<(VarId, SsaValue)>,
    i: int,
)
    requires
        0 <= i,
        entries_are_written(s, b, entries),
    ensures
        extends(s, complete_phis(s, b, entries, i).0),
        forall|k: int|
            0 <= k < s.blocks.len() && ((#[trigger] s.blocks[k]).sealed || k == b.0)
                ==> complete_phis(s, b, entries, i).0.blocks[k].incomplete_phis
                == s.blocks[k].incomplete_phis,
    decreases entries.len() - i,
{
    if i < entries.len() {
        match entries[i].1 {
            SsaValue::Phi(p) => {
                let v = entries[i].0;
                let added = add_phi_operands(s, b, v, p);
                lemma_add_phi_operands_extends(s, b, v, p);
                lemma_add_phi_operands_keeps_incomplete(s, b, v, p);
                assert(s.blocks[b.0 as int].assignments.contains_key(v));
                if added.1 is Ok {
                    assert forall|j: int| 0 <= j < entries.len() implies added.0.holds(
                        b,
                        (#[trigger] entries[j]).0,
                    ) && added.0.chains_end(entries[j].0) by {
                        lemma_extends_chains_end(s, added.0, entries[j].0);
                        assert(added.0.blocks[b.0 as int].sealed == s.blocks[b.0 as int].sealed);
                    }
                    lemma_complete_phis_keeps_incomplete(added.0, b, entries, i + 1);
                    let last = complete_phis(added.0, b, entries, i + 1).0;
                    lemma_extends_transitive(s, added.0, last);
                    assert forall|k: int|
                        0 <= k < s.blocks.len() && ((#[trigger] s.blocks[k]).sealed || k
                            == b.0) implies last.blocks[k].incomplete_phis
                        == s.blocks[k].incomplete_phis by {
                        assert(added.0.blocks[k].sealed == s.blocks[k].sealed);
                    }
                }
            },
            _ => {},
        }
    }
}

/// After a block was sealed, or could not be, no sealed block has an
/// incomplete phi, if none had one before and the block holds a value for
/// the variable of each of its incomplete phis.
///
/// A block that is among its own predecessors and holds no value for such a
/// variable is read while it is sealed, and may get another incomplete phi
/// that the seal does not complete.
pub proof fn law_seal_keeps_sealed_blocks_complete(s: ProgramView, b: BlockId)
    requires
        sealed_blocks_are_complete(s),
        entries_are_written(s, b, s.waiting(b)),
    ensures
        sealed_blocks_are_complete(semantics::seal(s, b).0),
{
    let entries = blocks_take_incomplete_phis(s.blocks, b).1;
    let taken = s.with_blocks(blocks_take_incomplete_phis(s.blocks, b).0);
    assert(extends(s, taken));
    assert forall|j: int| 0 <= j < entries.len() implies taken.holds(b, (#[trigger] entries[j]).0)
        && taken.chains_end(entries[j].0) by {
        lemma_extends_chains_end(s, taken, entries[j].0);
    }
    lemma_complete_phis_keeps_incomplete(taken, b, entries, 0);
    let completed = complete_phis(taken, b, entries, 0);
    let after = semantics::seal(s, b).0;
    assert forall|i: int| 0 <= i < after.blocks.len() && (#[trigger] after.blocks[i]).sealed
        implies after.blocks[i].incomplete_phis.len() == 0 by {
        assert(completed.0.blocks[i].sealed == taken.blocks[i].sealed);
        assert(taken.blocks[i].sealed == s.blocks[i].sealed);
        if i == b.0 {
            assert(completed.0.blocks[i].incomplete_phis == taken.blocks[i].incomplete_phis);
        } else {
            assert(taken.blocks[i] == s.blocks[i]);
        }
    }
}

/// The phi that a read makes in a sealed block that has not exactly one
/// predecessor gets one operand for each predecessor of the block, in their
/// order; the phis that there were keep their operands.
pub proof fn law_read_gives_phi_an_operand_per_predecessor(s: ProgramView, b: BlockId, v: VarId)
    requires
        s.chains_end(v),
        s.is_sealed(b),
        !s.holds(b, v),
        s.block(b).predecessors.len() != 1,
        read(s, b, v).1 is Ok,
        read(s, b, v).0.phis.len() <= usize::MAX,
    ensures
        ({
            let after = read(s, b, v).0;
            let p = PhiId(s.phis.len() as usize);
            &&& after.has_phi(p)
            &&& after.phi(p).block_id == b
            &&& after.phi(p).operands == operands_for(after.block(b).predecessors, v, 0)
            &&& after.phi(p).operands.len() == after.block(b).predecessors.len()
            &&& same_operands(s, after)
        }),
{
    lemma_read_recursive_same_operands(s, b, v);
    lemma_read_extends(s, b, v);
    let after = read(s, b, v).0;
    assert(after.blocks[b.0 as int].predecessors == s.blocks[b.0 as int].predecessors);
}

/// The entry is a phi of the block that has no operands yet, and the reads
/// of its variable come to an end.
pub open spec fn entry_waits(s: ProgramView, b: BlockId, entry: (VarId, SsaValue)) -> bool {
    match entry.1 {
        SsaValue::Phi(p) => s.has_phi(p) && s.phi(p).block_id == b && s.phi(p).operands.len() == 0
            && s.chains_end(entry.0),
        _ => false,
    }
}

/// From position `from` on, the entries are phis of the block without
/// operands, each another one.
pub open spec fn entries_wait(
    s: ProgramView,
    b: BlockId,
    entries: Seq<(VarId, SsaValue)>,
    from: int,
) -> bool {
    &&& forall|j: int| from <= j < entries.len() ==> entry_waits(s, b, #[trigger] entries[j])
    &&& forall|j: int, k: int|
        from <= j < k < entries.len() ==> (#[trigger] entries[j]).1 != (#[trigger] entries[k]).1
}

/// From position `from` on, each entry is a phi with one operand for each of
/// the predecessors.
pub open spec fn entries_are_complete(
    s: ProgramView,
    predecessors: Seq<BlockId>,
    entries: Seq<(VarId, SsaValue)>,
    from: int,
) -> bool {
    forall|j: int|
        from <= j < entries.len() ==> match (#[trigger] entries[j]).1 {
            SsaValue::Phi(p) => s.has_phi(p) && s.phi(p).operands == operands_for(
                predecessors,
                entries[j].0,
                0,
            ),
            _ => false,
        }
}

/// Completing the phis that wait gives each its operands, changes the
/// operands of no other phi, and leaves every block its predecessors.
proof fn lemma_complete_phis_gives_operands(
    s: ProgramView,
    b: BlockId,
    entries: Seq<(VarId, SsaValue)>,
    i: int,
)
    requires
        0 <= i <= entries.len(),
        s.has_block(b),
        entries_wait(s, b, entries, i),
        complete_phis(s, b, entries, i).1 is Ok,
        complete_phis(s, b, entries, i).0.phis.len() <= usize::MAX,
    ensures
        extends(s, complete_phis(s, b, entries, i).0),
        same_predecessors(s, complete_phis(s, b, entries, i).0),
        entries_are_complete(
            complete_phis(s, b, entries, i).0,
            s.block(b).predecessors,
            entries,
            i,
        ),
        forall|q: int|
            0 <= q < s.phis.len() && (forall|j: int|
                i <= j < entries.len() ==> (#[trigger] entries[j]).1 != SsaValue::Phi(
                    PhiId(q as usize),
                )) ==> (#[trigger] complete_phis(s, b, entries, i).0.phis[q]).operands
                == s.phis[q].operands,
    decreases entries.len() - i,
{
    if i < entries.len() {
        assert(entry_waits(s, b, entries[i]));
        let v = entries[i].0;
        let p = entries[i].1->Phi_0;
        let added = add_phi_operands(s, b, v, p);
        let last = complete_phis(added.0, b, entries, i + 1);
        lemma_add_phi_operands_extends(s, b, v, p);
        if added.1 is Ok {
            assert forall|j: int| i + 1 <= j < entries.len() implies added.0.chains_end(
                (#[trigger] entries[j]).0,
            ) by {
                assert(entry_waits(s, b, entries[j]));
                lemma_extends_chains_end(s, added.0, entries[j].0);
            }
            assert(entries_wait(added.0, b, entries, i + 1)) by {
                lemma_complete_phis_fits(added.0, b, entries, i + 1);
                lemma_add_phi_operands_same_operands(s, b, v, p);
                assert forall|j: int| i + 1 <= j < entries.len() implies entry_waits(
                    added.0,
                    b,
                    #[trigger] entries[j],
                ) by {
                    assert(entry_waits(s, b, entries[j]));
                    assert(entries[i].1 != entries[j].1);
                    let q = entries[j].1->Phi_0;
                    assert(added.0.phis[q.0 as int].operands == s.phis[q.0 as int].operands);
                    lemma_extends_chains_end(s, added.0, entries[j].0);
                }
            }
            lemma_complete_phis_fits(added.0, b, entries, i + 1);
            lemma_add_phi_operands_same_operands(s, b, v, p);
            lemma_complete_phis_gives_operands(added.0, b, entries, i + 1);
            lemma_extends_transitive(s, added.0, last.0);
            assert(added.0.blocks[b.0 as int].predecessors == s.blocks[b.0 as int].predecessors);
            assert(same_predecessors(s, last.0)) by {
                assert forall|k: int| 0 <= k < s.blocks.len() implies (
                #[trigger] last.0.blocks[k]).predecessors == s.blocks[k].predecessors by {
                    assert(added.0.blocks[k].predecessors == s.blocks[k].predecessors);
                }
            }
            assert(s.phi(p).operands + operands_for(s.block(b).predecessors, v, 0)
                =~= operands_for(s.block(b).predecessors, v, 0));
            assert(last.0.phis[p.0 as int].operands == added.0.phis[p.0 as int].operands) by {
                assert forall|j: int| i + 1 <= j < entries.len() implies (
                #[trigger] entries[j]).1 != SsaValue::Phi(PhiId(p.0 as int as usize)) by {
                    assert(entries[i].1 != entries[j].1);
                }
            }
            assert forall|j: int| i <= j < entries.len() implies match (#[trigger] entries[j]).1 {
                SsaValue::Phi(q) => last.0.has_phi(q) && last.0.phi(q).operands == operands_for(
                    s.block(b).predecessors,
                    entries[j].0,
                    0,
                ),
                _ => false,
            } by {
                if j > i {
                    assert(entry_waits(s, b, entries[j]));
                }
            }
            assert forall|q: int|
                0 <= q < s.phis.len() && (forall|j: int|
                    i <= j < entries.len() ==> (#[trigger] entries[j]).1 != SsaValue::Phi(
                        PhiId(q as usize),
                    )) implies (#[trigger] last.0.phis[q]).operands == s.phis[q].operands by {
                assert(entries[i].1 != SsaValue::Phi(PhiId(q as usize)));
                assert(q != p.0);
                assert(added.0.phis[q].operands == s.phis[q].operands);
            }
        }
    }
}

/// The phis that there are when some of the entries were completed fit the
/// machine if those after all were completed do.
proof fn lemma_complete_phis_fits(
    s: ProgramView,
    b: BlockId,
    entries: Seq<(VarId, SsaValue)>,
    i: int,
)
    requires
        0 <= i <= entries.len(),
        forall|j: int| i <= j < entries.len() ==> s.chains_end((#[trigger] entries[j]).0),
    ensures
        extends(s, complete_phis(s, b, entries, i).0),
    decreases entries.len() - i,
{
    if i < entries.len() {
        match entries[i].1 {
            SsaValue::Phi(p) => {
                let added = add_phi_operands(s, b, entries[i].0, p);
                lemma_add_phi_operands_extends(s, b, entries[i].0, p);
                if added.1 is Ok {
                    assert forall|j: int| i + 1 <= j < entries.len() implies added.0.chains_end(
                        (#[trigger] entries[j]).0,
                    ) by {
                        lemma_extends_chains_end(s, added.0, entries[j].0);
                    }
                    lemma_complete_phis_fits(added.0, b, entries, i + 1);
                    lemma_extends_transitive(
                        s,
                        added.0,
                        complete_phis(added.0, b, entries, i + 1).0,
                    );
                }
            },
            _ => {},
        }
    }
}

/// When a block is sealed, each of its incomplete phis gets one operand for
/// each predecessor of the block, in their order.
pub proof fn law_seal_gives_phis_an_operand_per_predecessor(s: ProgramView, b: BlockId)
    requires
        s.has_block(b),
        entries_wait(s, b, s.waiting(b), 0),
        semantics::seal(s, b).1 is Ok,
        semantics::seal(s, b).0.phis.len() <= usize::MAX,
    ensures
        semantics::seal(s, b).0.block(b).predecessors == s.block(b).predecessors,
        entries_are_complete(
            semantics::seal(s, b).0,
            semantics::seal(s, b).0.block(b).predecessors,
            s.waiting(b),
            0,
        ),
{
    let entries = s.block(b).incomplete_phis;
    let taken = s.with_blocks(blocks_take_incomplete_phis(s.blocks, b).0);
    assert(extends(s, taken));
    assert(entries_wait(taken, b, entries, 0)) by {
        assert forall|j: int| 0 <= j < entries.len() implies entry_waits(
            taken,
            b,
            #[trigger] entries[j],
        ) by {
            assert(entry_waits(s, b, entries[j]));
            lemma_extends_chains_end(s, taken, entries[j].0);
        }
    }
    lemma_complete_phis_gives_operands(taken, b, entries, 0);
    let completed = complete_phis(taken, b, entries, 0).0;
    assert(completed.blocks[b.0 as int].predecessors == taken.blocks[b.0 as int].predecessors);
}

/// Where the uses are recorded, a phi that a block holds as the value of a
/// variable has that slot among its users, unless the slot is one that a
/// trivial phi was replaced in by another phi.
pub proof fn law_phi_in_slot_has_slot_as_user(s: ProgramView, b: BlockId, v: VarId, p: PhiId)
    requires
        uses_are_recorded(s),
        s.holds(b, v),
        s.value(b, v) == SsaValue::Phi(p),
        !s.rerouted.contains((b, v)),
    ensures
        s.has_phi(p),
        s.phi(p).users.contains((b, v)),
{
    assert(use_is_recorded(s, b, v));
}

/// In a new program the uses are recorded, and they stay recorded when a
/// block or a variable is defined, a predecessor added or a value written.
pub proof fn law_uses_stay_recorded(
    s: ProgramView,
    b: BlockId,
    to: BlockId,
    v: VarId,
    value: SsaValue,
    constant: ConstValue,
)
    requires
        uses_are_recorded(s),
    ensures
        uses_are_recorded(ProgramView::empty()),
        ProgramView::empty().rerouted == Set::<(BlockId, VarId)>::empty(),
        uses_are_recorded(semantics::block(s).0),
        uses_are_recorded(semantics::var(s).0),
        uses_are_recorded(semantics::add_predecessor(s, b, to).0),
        uses_are_recorded(semantics::write_var(s, b, v, value).0),
        uses_are_recorded(semantics::write(s, b, v, value).0),
        uses_are_recorded(semantics::write_constant(s, b, v, constant).0),
{
    let defined = semantics::block(s).0;
    assert forall|c: BlockId, w: VarId| #[trigger] defined.holds(c, w) implies use_is_recorded(
        defined,
        c,
        w,
    ) by {
        if c.0 < s.blocks.len() {
            assert(s.holds(c, w));
            assert(use_is_recorded(s, c, w));
        }
    }
    let named = semantics::var(s).0;
    assert forall|c: BlockId, w: VarId| #[trigger] named.holds(c, w) implies use_is_recorded(
        named,
        c,
        w,
    ) by {
        assert(s.holds(c, w));
        assert(use_is_recorded(s, c, w));
    }
    let added = semantics::add_predecessor(s, b, to).0;
    assert forall|c: BlockId, w: VarId| #[trigger] added.holds(c, w) implies use_is_recorded(
        added,
        c,
        w,
    ) by {
        assert(s.holds(c, w));
        assert(use_is_recorded(s, c, w));
    }
    lemma_write_var_records(s, b, v, value);
    lemma_write_var_records(named, b, v, value);
    let interned = ProgramView { consts: s.consts.push(constant), ..s };
    assert forall|c: BlockId, w: VarId| #[trigger] interned.holds(c, w) implies use_is_recorded(
        interned,
        c,
        w,
    ) by {
        assert(s.holds(c, w));
        assert(use_is_recorded(s, c, w));
    }
    lemma_write_var_records(
        interned,
        b,
        v,
        SsaValue::Const(crate::consts::ConstId(s.consts.len() as usize)),
    );
}

/// After a read, whatever it returned, the uses are recorded if they were
/// before.
pub proof fn law_read_keeps_uses_recorded(s: ProgramView, b: BlockId, v: VarId)
    requires
        s.chains_end(v),
        uses_are_recorded(s),
    ensures
        uses_are_recorded(read(s, b, v).0),
{
    lemma_read_records(s, b, v);
}

/// Completing phis keeps the uses recorded.
proof fn lemma_complete_phis_records(
    s: ProgramView,
    b: BlockId,
    entries: Seq<(VarId, SsaValue)>,
    i: int,
)
    requires
        0 <= i,
        uses_are_recorded(s),
        forall|j: int| 0 <= j < entries.len() ==> s.chains_end((#[trigger] entries[j]).0),
    ensures
        uses_are_recorded(complete_phis(s, b, entries, i).0),
    decreases entries.len() - i,
{
    if i < entries.len() {
        match entries[i].1 {
            SsaValue::Phi(p) => {
                let added = add_phi_operands(s, b, entries[i].0, p);
                lemma_add_phi_operands_records(s, b, entries[i].0, p);
                lemma_add_phi_operands_extends(s, b, entries[i].0, p);
                if added.1 is Ok {
                    assert forall|j: int| 0 <= j < entries.len() implies added.0.chains_end(
                        (#[trigger] entries[j]).0,
                    ) by {
                        lemma_extends_chains_end(s, added.0, entries[j].0);
                    }
                    lemma_complete_phis_records(added.0, b, entries, i + 1);
                }
            },
            _ => {},
        }
    }
}

/// After a block was sealed, or could not be, the uses are recorded if they
/// were before.
pub proof fn law_seal_keeps_uses_recorded(s: ProgramView, b: BlockId)
    requires
        uses_are_recorded(s),
        forall|j: int|
            0 <= j < s.waiting(b).len() ==> s.chains_end((#[trigger] s.waiting(b)[j]).0),
    ensures
        uses_are_recorded(semantics::seal(s, b).0),
{
    let entries = blocks_take_incomplete_phis(s.blocks, b).1;
    let taken = s.with_blocks(blocks_take_incomplete_phis(s.blocks, b).0);
    assert(extends(s, taken));
    lemma_recorded_by_same_slots(s, taken);
    assert forall|j: int| 0 <= j < entries.len() implies taken.chains_end(
        (#[trigger] entries[j]).0,
    ) by {
        assert(s.waiting(b)[j] == entries[j]);
        lemma_extends_chains_end(s, taken, entries[j].0);
    }
    lemma_complete_phis_records(taken, b, entries, 0);
    let completed = complete_phis(taken, b, entries, 0).0;
    let after = semantics::seal(s, b).0;
    if completed != after {
        lemma_recorded_by_same_slots(completed, after);
    }
}

/// The phi is live: it exists and has a user. A phi is given a user when it
/// is made, and loses its users when it is removed as trivial.
pub open spec fn is_live(s: ProgramView, p: PhiId) -> bool {
    s.has_phi(p) && s.phi(p).users.len() > 0
}

/// The phis that are live.
pub open spec fn live_phis(s: ProgramView) -> Set<PhiId> {
    Set::new(|p: PhiId| is_live(s, p))
}

/// The order in which two slots are written does not show in what the blocks
/// hold, nor in which phis are live.
pub proof fn law_order_of_writes_does_not_show(
    s: ProgramView,
    b: BlockId,
    v: VarId,
    value: SsaValue,
    c: BlockId,
    w: VarId,
    other: SsaValue,
)
    requires
        b != c || v != w,
    ensures
        ({
            let one = semantics::write_var(semantics::write_var(s, b, v, value).0, c, w, other);
            let two = semantics::write_var(semantics::write_var(s, c, w, other).0, b, v, value);
            semantics::write_var(s, b, v, value).1 is Ok && one.1 is Ok ==> {
                &&& semantics::write_var(s, c, w, other).1 is Ok
                &&& two.1 is Ok
                &&& one.0.blocks == two.0.blocks
                &&& live_phis(one.0) == live_phis(two.0)
            }
        }),
{
    let first = semantics::write_var(s, b, v, value);
    let one = semantics::write_var(first.0, c, w, other);
    let second = semantics::write_var(s, c, w, other);
    let two = semantics::write_var(second.0, b, v, value);
    if first.1 is Ok && one.1 is Ok {
        assert(second.1 is Ok);
        assert(two.1 is Ok);
        assert forall|i: int| 0 <= i < one.0.blocks.len() implies one.0.blocks[i]
            == two.0.blocks[i] by {
            assert(one.0.blocks[i].assignments =~= two.0.blocks[i].assignments);
        }
        assert(one.0.blocks =~= two.0.blocks);
        assert forall|p: PhiId| is_live(one.0, p) == is_live(two.0, p) by {
            if s.has_phi(p) {
                assert(one.0.phi(p).users.len() == two.0.phi(p).users.len());
            }
        }
        assert(live_phis(one.0) =~= live_phis(two.0));
    }
}

/// A read of a variable in the block in which it was just written returns
/// what was written and changes nothing.
pub proof fn law_read_returns_what_was_written(s: ProgramView, b: BlockId, v: VarId, value: SsaValue)
    requires
        semantics::write_var(s, b, v, value).1 is Ok,
        semantics::write_var(s, b, v, value).0.chains_end(v),
    ensures
        read(semantics::write_var(s, b, v, value).0, b, v) == (
            semantics::write_var(s, b, v, value).0,
            Ok::<SsaValue, crate::error::ErrorKind>(value),
        ),
{
}

/// Every block of `before` is a block of `after`, with the identifier that
/// it had, and sealed if it was.
pub open spec fn blocks_stay(before: ProgramView, after: ProgramView) -> bool {
    &&& after.blocks.len() >= before.blocks.len()
    &&& forall|i: int|
        0 <= i < before.blocks.len() ==> (#[trigger] after.blocks[i]).id == before.blocks[i].id
            && (before.blocks[i].sealed ==> after.blocks[i].sealed)
}

/// The identifier of every block is its position.
pub open spec fn ids_are_positions(s: ProgramView) -> bool {
    forall|i: int| 0 <= i < s.blocks.len() ==> (#[trigger] s.blocks[i]).id == BlockId(i as usize)
}

/// No operation removes a block, changes its identifier or opens it again.
pub proof fn law_blocks_stay(
    s: ProgramView,
    b: BlockId,
    to: BlockId,
    v: VarId,
    value: SsaValue,
    constant: ConstValue,
)
    requires
        s.chains_end(v),
        forall|j: int|
            0 <= j < s.waiting(b).len() ==> s.chains_end((#[trigger] s.waiting(b)[j]).0),
    ensures
        blocks_stay(s, semantics::block(s).0),
        blocks_stay(s, semantics::var(s).0),
        blocks_stay(s, semantics::add_predecessor(s, b, to).0),
        blocks_stay(s, semantics::write_var(s, b, v, value).0),
        blocks_stay(s, semantics::write(s, b, v, value).0),
        blocks_stay(s, semantics::write_constant(s, b, v, constant).0),
        blocks_stay(s, read(s, b, v).0),
        blocks_stay(s, semantics::seal(s, b).0),
{
    lemma_read_extends(s, b, v);
    let entries = blocks_take_incomplete_phis(s.blocks, b).1;
    let taken = s.with_blocks(blocks_take_incomplete_phis(s.blocks, b).0);
    assert(extends(s, taken));
    assert forall|j: int| 0 <= j < entries.len() implies taken.chains_end(
        (#[trigger] entries[j]).0,
    ) by {
        assert(s.waiting(b)[j] == entries[j]);
        lemma_extends_chains_end(s, taken, entries[j].0);
    }
    lemma_complete_phis_fits(taken, b, entries, 0);
    let completed = complete_phis(taken, b, entries, 0).0;
    let sealed = semantics::seal(s, b).0;
    assert forall|i: int| 0 <= i < s.blocks.len() implies (#[trigger] sealed.blocks[i]).id
        == s.blocks[i].id && (s.blocks[i].sealed ==> sealed.blocks[i].sealed) by {
        assert(completed.blocks[i].sealed == taken.blocks[i].sealed);
        assert(taken.blocks[i].sealed == s.blocks[i].sealed);
    }
    let written = semantics::write_var(s, b, v, value).0;
    assert forall|i: int| 0 <= i < s.blocks.len() implies (#[trigger] written.blocks[i]).id
        == s.blocks[i].id && (s.blocks[i].sealed ==> written.blocks[i].sealed) by {}
    let named = semantics::write(s, b, v, value).0;
    assert forall|i: int| 0 <= i < s.blocks.len() implies (#[trigger] named.blocks[i]).id
        == s.blocks[i].id && (s.blocks[i].sealed ==> named.blocks[i].sealed) by {}
    let interned = semantics::write_constant(s, b, v, constant).0;
    assert forall|i: int| 0 <= i < s.blocks.len() implies (#[trigger] interned.blocks[i]).id
        == s.blocks[i].id && (s.blocks[i].sealed ==> interned.blocks[i].sealed) by {}
    let added = semantics::add_predecessor(s, b, to).0;
    assert forall|i: int| 0 <= i < s.blocks.len() implies (#[trigger] added.blocks[i]).id
        == s.blocks[i].id && (s.blocks[i].sealed ==> added.blocks[i].sealed) by {}
}

/// The identifier of a new block is its position: where the identifiers of
/// the blocks are their positions, they are so after a block was defined.
pub proof fn law_block_ids_are_positions(s: ProgramView)
    requires
        ids_are_positions(s),
        s.blocks.len() <= usize::MAX,
    ensures
        ids_are_positions(ProgramView::empty()),
        ids_are_positions(semantics::block(s).0),
        semantics::block(s).1 == BlockId(s.blocks.len() as usize),
{
    let defined = semantics::block(s).0;
    assert forall|i: int| 0 <= i < defined.blocks.len() implies (#[trigger] defined.blocks[i]).id
        == BlockId(i as usize) by {
        if i < s.blocks.len() {
            assert(defined.blocks[i] == s.blocks[i]);
        }
    }
}

} // verus!
