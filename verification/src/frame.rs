//! What reading and trivial phi removal leave as it was.
use vstd::prelude::*;

use crate::blocks::BlockId;
use crate::inst::SsaValue;
use crate::measure::keeps_values;
use crate::measure::lacking;
use crate::measure::lemma_lacking_decreases;
use crate::measure::lemma_lacking_monotone;
use crate::measure::lemma_total_users_update;
use crate::measure::total_users;
use crate::model::ProgramView;
use crate::phi::PhiId;
use crate::program::VarId;
use crate::semantics::add_phi_operands;
use crate::semantics::cascade_target;
use crate::semantics::read;
use crate::semantics::read_operands;
use crate::semantics::read_recursive;
use crate::semantics::replace_uses;
use crate::semantics::scan_operands;
use crate::semantics::try_remove_trivial_phi;
use crate::semantics::Verdict;
use crate::semantics::write_var;

verus! {

/// `after` has the blocks of `before`, each sealed or open as it was, each
/// with a value wherever it had one, and each with the predecessors that it
/// had or with none; and it has the phis of `before`, and maybe more.
pub open spec fn extends(before: ProgramView, after: ProgramView) -> bool {
    &&& after.blocks.len() == before.blocks.len()
    &&& after.phis.len() >= before.phis.len()
    &&& after.consts == before.consts
    &&& after.var_id == before.var_id
    &&& forall|i: int|
        0 <= i < before.blocks.len() ==> {
            &&& (#[trigger] after.blocks[i]).sealed == before.blocks[i].sealed
            &&& after.blocks[i].id == before.blocks[i].id
            &&& before.blocks[i].assignments.dom().subset_of(after.blocks[i].assignments.dom())
            &&& (after.blocks[i].predecessors == before.blocks[i].predecessors
                || after.blocks[i].predecessors.len() == 0)
        }
}

/// What extends a program that extends another extends that other one.
pub proof fn lemma_extends_transitive(a: ProgramView, b: ProgramView, c: ProgramView)
    requires
        extends(a, b),
        extends(b, c),
    ensures
        extends(a, c),
{
    assert forall|i: int| 0 <= i < a.blocks.len() implies {
        &&& (#[trigger] c.blocks[i]).sealed == a.blocks[i].sealed
        &&& c.blocks[i].id == a.blocks[i].id
        &&& a.blocks[i].assignments.dom().subset_of(c.blocks[i].assignments.dom())
        &&& (c.blocks[i].predecessors == a.blocks[i].predecessors
            || c.blocks[i].predecessors.len() == 0)
    } by {
        assert(b.blocks[i].sealed == a.blocks[i].sealed);
    }
}

/// In a program that extends another, no more blocks lack a value for `v`.
pub proof fn lemma_extends_lacking(before: ProgramView, after: ProgramView, v: VarId)
    requires
        extends(before, after),
    ensures
        lacking(after.blocks, v) <= lacking(before.blocks, v),
{
    assert forall|i: int|
        0 <= i < before.blocks.len() && (#[trigger] before.blocks[i]).assignments.contains_key(
            v,
        ) implies after.blocks[i].assignments.contains_key(v) by {
        assert(after.blocks[i].sealed == before.blocks[i].sealed);
    }
    lemma_lacking_monotone(before.blocks, after.blocks, v);
}

/// In a program that extends another, a read passes through no block that it
/// did not pass through before, so its walks still come to an end.
pub proof fn lemma_extends_chains_end(before: ProgramView, after: ProgramView, v: VarId)
    requires
        extends(before, after),
        before.chains_end(v),
    ensures
        after.chains_end(v),
{
    let rank = choose|rank: Seq<nat>| before.ranked_by(v, rank);
    assert(before.ranked_by(v, rank));
    assert forall|b: BlockId| #[trigger]
        after.passes_through(b, v) && after.has_block(
            after.block(b).predecessors[0],
        ) implies rank[after.block(b).predecessors[0].0 as int] < rank[b.0 as int] by {
        assert(after.blocks[b.0 as int].sealed == before.blocks[b.0 as int].sealed);
        assert(before.passes_through(b, v));
    }
    assert(after.ranked_by(v, rank));
}

/// Every block of `after` has the predecessors and the incomplete phis that
/// it has in `before`, and holds a value for the variables that it holds one
/// for in `before`, and for no other.
pub open spec fn same_shape(before: ProgramView, after: ProgramView) -> bool {
    &&& after.blocks.len() == before.blocks.len()
    &&& forall|i: int|
        0 <= i < before.blocks.len() ==> {
            &&& (#[trigger] after.blocks[i]).predecessors == before.blocks[i].predecessors
            &&& after.blocks[i].incomplete_phis == before.blocks[i].incomplete_phis
            &&& after.blocks[i].assignments.dom() == before.blocks[i].assignments.dom()
        }
}

/// Every phi of `before` belongs in `after` to the block that it belonged
/// to, and has the operands that it had.
pub open spec fn same_operands(before: ProgramView, after: ProgramView) -> bool {
    &&& after.phis.len() >= before.phis.len()
    &&& forall|q: int|
        0 <= q < before.phis.len() ==> (#[trigger] after.phis[q]).block_id
            == before.phis[q].block_id && after.phis[q].operands == before.phis[q].operands
}

/// Replacing the uses of a phi changes no block but in the values it holds.
pub proof fn lemma_replace_uses_extends(s: ProgramView, users: Seq<(BlockId, VarId)>, same: SsaValue)
    ensures
        extends(s, replace_uses(s, users, same)),
        replace_uses(s, users, same).phis == s.phis,
        same_shape(s, replace_uses(s, users, same)),
{
    let after = replace_uses(s, users, same);
    assert forall|i: int| 0 <= i < s.blocks.len() implies (#[trigger] after.blocks[i]).predecessors
        == s.blocks[i].predecessors && after.blocks[i].incomplete_phis
        == s.blocks[i].incomplete_phis && after.blocks[i].assignments.dom()
        == s.blocks[i].assignments.dom() by {
        assert(after.blocks[i].assignments.dom() =~= s.blocks[i].assignments.dom());
    }
}

/// Trivial phi removal leaves the blocks as `extends` says, with the
/// predecessors that they had, and registers no user.
pub proof fn lemma_try_remove_extends(s: ProgramView, p: PhiId)
    ensures
        extends(s, try_remove_trivial_phi(s, p).0),
        try_remove_trivial_phi(s, p).0.phis.len() == s.phis.len(),
        total_users(try_remove_trivial_phi(s, p).0.phis) <= total_users(s.phis),
        same_shape(s, try_remove_trivial_phi(s, p).0),
        same_operands(s, try_remove_trivial_phi(s, p).0),
    decreases total_users(s.phis),
{
    if s.has_phi(p) {
        match scan_operands(s, s.phi(p).operands, 0, None, p) {
            Ok(Verdict::Trivial(found)) => {
                let same = match found {
                    Some(value) => value,
                    None => SsaValue::Undef,
                };
                let users = s.phi(p).users;
                let taken = s.with_phis(crate::model::phis_take_users_of(s.phis, p).0);
                let replaced = replace_uses(taken, users, same);
                lemma_replace_uses_extends(taken, users, same);
                lemma_total_users_update(s.phis, p.0 as int, s.phi(p).with_users(Seq::empty()));
                assert(total_users(replaced.phis) + users.len() == total_users(s.phis));
                match cascade_target(replaced, users, same, p) {
                    None => {},
                    Some(q) => {
                        assert(users.len() > 0);
                        lemma_try_remove_extends(replaced, q);
                        lemma_extends_transitive(s, replaced, try_remove_trivial_phi(replaced, q).0);
                        let last = try_remove_trivial_phi(replaced, q).0;
                        assert forall|k: int| 0 <= k < s.phis.len() implies (
                        #[trigger] last.phis[k]).block_id == s.phis[k].block_id
                            && last.phis[k].operands == s.phis[k].operands by {
                            assert(replaced.phis[k].operands == s.phis[k].operands);
                        }
                        assert forall|i: int| 0 <= i < s.blocks.len() implies (
                        #[trigger] last.blocks[i]).predecessors == s.blocks[i].predecessors
                            && last.blocks[i].incomplete_phis == s.blocks[i].incomplete_phis
                            && last.blocks[i].assignments.dom()
                            == s.blocks[i].assignments.dom() by {
                            assert(replaced.blocks[i].predecessors == s.blocks[i].predecessors);
                        }
                    },
                }
            },
            _ => {},
        }
    }
}

/// Where trivial phi removal goes on to another phi, it has taken users away.
pub proof fn lemma_cascade_takes_users(s: ProgramView, p: PhiId, same: SsaValue)
    requires
        s.has_phi(p),
        cascade_target(
            replace_uses(
                s.with_phis(crate::model::phis_take_users_of(s.phis, p).0),
                s.phi(p).users,
                same,
            ),
            s.phi(p).users,
            same,
            p,
        ) is Some,
    ensures
        total_users(
            replace_uses(
                s.with_phis(crate::model::phis_take_users_of(s.phis, p).0),
                s.phi(p).users,
                same,
            ).phis,
        ) < total_users(s.phis),
{
    lemma_total_users_update(s.phis, p.0 as int, s.phi(p).with_users(Seq::empty()));
}

/// Every block of `after` has the predecessors that it has in `before`.
pub open spec fn same_predecessors(before: ProgramView, after: ProgramView) -> bool {
    &&& after.blocks.len() == before.blocks.len()
    &&& forall|i: int|
        0 <= i < before.blocks.len() ==> (#[trigger] after.blocks[i]).predecessors
            == before.blocks[i].predecessors
}

/// A read extends the program, whatever it returns; where it succeeds, every
/// block has its predecessors again.
pub proof fn lemma_read_extends(s: ProgramView, b: BlockId, v: VarId)
    requires
        s.chains_end(v),
    ensures
        extends(s, read(s, b, v).0),
        read(s, b, v).1 is Ok ==> same_predecessors(s, read(s, b, v).0),
    decreases lacking(s.blocks, v), 1nat, s.rank(v, b), 1nat,
{
    if s.has_block(b) && !s.holds(b, v) {
        lemma_read_recursive_extends(s, b, v);
    }
}

/// The same of `read_recursive`.
pub proof fn lemma_read_recursive_extends(s: ProgramView, b: BlockId, v: VarId)
    requires
        s.chains_end(v),
        !s.holds(b, v),
    ensures
        extends(s, read_recursive(s, b, v).0),
        read_recursive(s, b, v).1 is Ok ==> same_predecessors(s, read_recursive(s, b, v).0),
    decreases lacking(s.blocks, v), 1nat, s.rank(v, b), 0nat,
{
    if !s.is_sealed(b) {
    } else if s.block(b).predecessors.len() == 1 {
        crate::measure::lemma_rank_decreases(s, b, v);
        lemma_read_extends(s, s.block(b).predecessors[0], v);
    } else {
        let p = crate::model::phis_build(s.phis, b).1;
        let built = s.with_phis(crate::model::phis_build(s.phis, b).0);
        let written = write_var(built, b, v, SsaValue::Phi(p));
        lemma_write_phi_gains(s, b, v);
        if written.1 is Ok {
            lemma_add_phi_operands_extends(written.0, b, v, p);
            lemma_extends_transitive(s, written.0, add_phi_operands(written.0, b, v, p).0);
        }
    }
}

/// Giving a sealed block a fresh phi as its value for `v`, which it lacked,
/// extends the program and leaves fewer blocks without a value for `v`.
pub proof fn lemma_write_phi_gains(s: ProgramView, b: BlockId, v: VarId)
    requires
        s.has_block(b),
        !s.holds(b, v),
    ensures
        ({
            let p = crate::model::phis_build(s.phis, b).1;
            let built = s.with_phis(crate::model::phis_build(s.phis, b).0);
            let written = write_var(built, b, v, SsaValue::Phi(p));
            &&& s.phis.len() <= usize::MAX ==> written.1 is Ok && written.0.phi(p).block_id == b
            &&& extends(s, written.0)
            &&& same_predecessors(s, written.0)
            &&& s.chains_end(v) ==> written.0.chains_end(v)
            &&& written.1 is Ok ==> {
                &&& lacking(written.0.blocks, v) < lacking(s.blocks, v)
                &&& written.0.holds(b, v)
                &&& written.0.has_phi(p)
            }
        }),
{
    let p = crate::model::phis_build(s.phis, b).1;
    let built = s.with_phis(crate::model::phis_build(s.phis, b).0);
    let written = write_var(built, b, v, SsaValue::Phi(p));
    assert(extends(s, written.0));
    assert(keeps_values(s.blocks, written.0.blocks, v)) by {
        assert forall|i: int|
            0 <= i < s.blocks.len() && (#[trigger] s.blocks[i]).assignments.contains_key(
                v,
            ) implies written.0.blocks[i].assignments.contains_key(v) by {
            assert(written.0.blocks[i].sealed == s.blocks[i].sealed);
        }
    }
    if written.1 is Ok {
        lemma_lacking_decreases(s.blocks, written.0.blocks, v, b.0 as int);
    }
    if s.chains_end(v) {
        lemma_extends_chains_end(s, written.0, v);
    }
}

/// The same of `add_phi_operands`.
pub proof fn lemma_add_phi_operands_extends(s: ProgramView, b: BlockId, v: VarId, p: PhiId)
    requires
        s.chains_end(v),
    ensures
        extends(s, add_phi_operands(s, b, v, p).0),
        add_phi_operands(s, b, v, p).1 is Ok ==> same_predecessors(
            s,
            add_phi_operands(s, b, v, p).0,
        ),
    decreases lacking(s.blocks, v), 3nat, 0nat, 0nat,
{
    if s.has_phi(p) {
        let owner = s.phi(p).block_id;
        match crate::model::blocks_take_predecessors(s.blocks, owner).1 {
            None => {
                lemma_try_remove_extends(s, p);
            },
            Some(predecessors) => {
                let taken = s.with_blocks(crate::model::blocks_take_predecessors(s.blocks, owner).0);
                assert(extends(s, taken));
                lemma_extends_lacking(s, taken, v);
                lemma_extends_chains_end(s, taken, v);
                lemma_read_operands_extends(taken, predecessors, 0, v, p);
                let filled = read_operands(taken, predecessors, 0, v, p);
                lemma_extends_transitive(s, taken, filled.0);
                if filled.1 is Ok {
                    let restored = filled.0.with_blocks(
                        crate::model::blocks_insert_predecessors(
                            filled.0.blocks,
                            owner,
                            predecessors,
                        ),
                    );
                    assert(extends(s, restored)) by {
                        assert forall|i: int| 0 <= i < s.blocks.len() implies {
                            &&& (#[trigger] restored.blocks[i]).sealed == s.blocks[i].sealed
                            &&& restored.blocks[i].id == s.blocks[i].id
                            &&& s.blocks[i].assignments.dom().subset_of(
                                restored.blocks[i].assignments.dom(),
                            )
                            &&& (restored.blocks[i].predecessors == s.blocks[i].predecessors
                                || restored.blocks[i].predecessors.len() == 0)
                        } by {
                            assert(filled.0.blocks[i].sealed == s.blocks[i].sealed);
                        }
                    }
                    assert(same_predecessors(s, restored)) by {
                        assert forall|i: int| 0 <= i < s.blocks.len() implies (
                        #[trigger] restored.blocks[i]).predecessors
                            == s.blocks[i].predecessors by {
                            assert(filled.0.blocks[i].predecessors == taken.blocks[i].predecessors);
                        }
                    }
                    lemma_try_remove_extends(restored, p);
                    lemma_extends_transitive(s, restored, try_remove_trivial_phi(restored, p).0);
                }
            },
        }
    }
}

/// The same of `read_operands`.
pub proof fn lemma_read_operands_extends(
    s: ProgramView,
    predecessors: Seq<BlockId>,
    i: int,
    v: VarId,
    p: PhiId,
)
    requires
        s.chains_end(v),
        0 <= i,
    ensures
        extends(s, read_operands(s, predecessors, i, v, p).0),
        read_operands(s, predecessors, i, v, p).1 is Ok ==> same_predecessors(
            s,
            read_operands(s, predecessors, i, v, p).0,
        ),
    decreases lacking(s.blocks, v), 2nat, predecessors.len() - i, 0nat,
{
    if i < predecessors.len() {
        lemma_read_extends(s, predecessors[i], v);
        let looked = read(s, predecessors[i], v);
        if looked.1 is Ok {
            let pushed = crate::model::phis_push_operand(looked.0.phis, p, predecessors[i], v);
            if pushed.1 is Ok {
                let next = looked.0.with_phis(pushed.0);
                assert(extends(s, next));
                lemma_extends_lacking(s, next, v);
                lemma_extends_chains_end(s, next, v);
                lemma_read_operands_extends(next, predecessors, i + 1, v, p);
                lemma_extends_transitive(s, next, read_operands(next, predecessors, i + 1, v, p).0);
            }
        }
    }
}

/// What `read_recursive` is in a sealed block that has not exactly one
/// predecessor: the test that its definition makes before it goes on to
/// `add_phi_operands` always succeeds.
pub proof fn lemma_read_recursive_unfolds(s: ProgramView, b: BlockId, v: VarId)
    requires
        s.chains_end(v),
        !s.holds(b, v),
        s.is_sealed(b),
        s.block(b).predecessors.len() != 1,
        s.phis.len() <= usize::MAX,
    ensures
        ({
            let p = crate::model::phis_build(s.phis, b).1;
            let built = s.with_phis(crate::model::phis_build(s.phis, b).0);
            let written = write_var(built, b, v, SsaValue::Phi(p));
            &&& written.1 is Ok
            &&& written.0.chains_end(v)
            &&& read_recursive(s, b, v) == add_phi_operands(written.0, b, v, p)
        }),
{
    lemma_write_phi_gains(s, b, v);
}

/// What `add_phi_operands` is for a phi whose block exists: the test that
/// its definition makes before it goes on to `read_operands` always
/// succeeds.
pub proof fn lemma_add_phi_operands_unfolds(s: ProgramView, b: BlockId, v: VarId, p: PhiId)
    requires
        s.chains_end(v),
        s.has_phi(p),
        s.has_block(s.phi(p).block_id),
    ensures
        ({
            let owner = s.phi(p).block_id;
            let predecessors = s.block(owner).predecessors;
            let taken = s.with_blocks(crate::model::blocks_take_predecessors(s.blocks, owner).0);
            let filled = read_operands(taken, predecessors, 0, v, p);
            &&& taken.chains_end(v)
            &&& add_phi_operands(s, b, v, p) == (match filled.1 {
                Err(e) => (filled.0, Err(e)),
                Ok(_) => try_remove_trivial_phi(
                    filled.0.with_blocks(
                        crate::model::blocks_insert_predecessors(
                            filled.0.blocks,
                            owner,
                            predecessors,
                        ),
                    ),
                    p,
                ),
            })
        }),
{
    let owner = s.phi(p).block_id;
    let taken = s.with_blocks(crate::model::blocks_take_predecessors(s.blocks, owner).0);
    assert(extends(s, taken));
    lemma_extends_lacking(s, taken, v);
    lemma_extends_chains_end(s, taken, v);
}

/// What `read_operands` is where the read of the next predecessor succeeds:
/// the test that its definition makes before it goes on to the predecessor
/// after that always succeeds.
pub proof fn lemma_read_operands_unfolds(
    s: ProgramView,
    predecessors: Seq<BlockId>,
    i: int,
    v: VarId,
    p: PhiId,
)
    requires
        s.chains_end(v),
        0 <= i < predecessors.len(),
        read(s, predecessors[i], v).1 is Ok,
        read(s, predecessors[i], v).0.has_phi(p),
    ensures
        ({
            let looked = read(s, predecessors[i], v);
            let next = looked.0.with_phis(
                crate::model::phis_push_operand(looked.0.phis, p, predecessors[i], v).0,
            );
            &&& next.chains_end(v)
            &&& read_operands(s, predecessors, i, v, p) == read_operands(
                next,
                predecessors,
                i + 1,
                v,
                p,
            )
        }),
{
    lemma_read_extends(s, predecessors[i], v);
    let looked = read(s, predecessors[i], v);
    let next = looked.0.with_phis(
        crate::model::phis_push_operand(looked.0.phis, p, predecessors[i], v).0,
    );
    assert(extends(s, next));
    lemma_extends_lacking(s, next, v);
    lemma_extends_chains_end(s, next, v);
}

/// What `try_remove_trivial_phi` is for a trivial phi: the test that its
/// definition makes before it goes on to the next phi always succeeds.
pub proof fn lemma_try_remove_unfolds(s: ProgramView, p: PhiId, found: Option<SsaValue>)
    requires
        s.has_phi(p),
        scan_operands(s, s.phi(p).operands, 0, None, p) == Ok::<Verdict, crate::error::ErrorKind>(
            Verdict::Trivial(found),
        ),
    ensures
        ({
            let same = match found {
                Some(value) => value,
                None => SsaValue::Undef,
            };
            let users = s.phi(p).users;
            let taken = s.with_phis(crate::model::phis_take_users_of(s.phis, p).0);
            let replaced = replace_uses(taken, users, same);
            try_remove_trivial_phi(s, p) == (match cascade_target(replaced, users, same, p) {
                None => (replaced, Ok::<SsaValue, crate::error::ErrorKind>(same)),
                Some(q) => (
                    try_remove_trivial_phi(replaced, q).0,
                    match try_remove_trivial_phi(replaced, q).1 {
                        Err(e) => Err(e),
                        Ok(_) => Ok(same),
                    },
                ),
            })
        }),
{
    let same = match found {
        Some(value) => value,
        None => SsaValue::Undef,
    };
    let users = s.phi(p).users;
    let taken = s.with_phis(crate::model::phis_take_users_of(s.phis, p).0);
    let replaced = replace_uses(taken, users, same);
    if cascade_target(replaced, users, same, p) is Some {
        lemma_cascade_takes_users(s, p, same);
    }
}

} // verus!
