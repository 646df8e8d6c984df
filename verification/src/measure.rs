//! The quantities by which reading and trivial phi removal come to an end.
use vstd::prelude::*;

use crate::blocks::BlockId;
use crate::model::BlockView;
use crate::model::PhiView;
use crate::model::ProgramView;
use crate::program::VarId;

verus! {

/// The number of blocks that hold no value for the variable.
pub open spec fn lacking(blocks: Seq<BlockView>, v: VarId) -> nat
    decreases blocks.len(),
{
    if blocks.len() == 0 {
        0
    } else {
        lacking(blocks.drop_last(), v) + if blocks.last().assignments.contains_key(v) {
            0nat
        } else {
            1nat
        }
    }
}

/// The number of users that the phis have registered, all together.
pub open spec fn total_users(phis: Seq<PhiView>) -> nat
    decreases phis.len(),
{
    if phis.len() == 0 {
        0
    } else {
        total_users(phis.drop_last()) + phis.last().users.len()
    }
}

/// Every block of `after` holds a value for `v` if it did in `before`.
pub open spec fn keeps_values(before: Seq<BlockView>, after: Seq<BlockView>, v: VarId) -> bool {
    &&& after.len() == before.len()
    &&& forall|i: int|
        0 <= i < before.len() && (#[trigger] before[i]).assignments.contains_key(v)
            ==> after[i].assignments.contains_key(v)
}

/// Where every block keeps its value, no more blocks lack one.
pub proof fn lemma_lacking_monotone(before: Seq<BlockView>, after: Seq<BlockView>, v: VarId)
    requires
        keeps_values(before, after, v),
    ensures
        lacking(after, v) <= lacking(before, v),
    decreases before.len(),
{
    if before.len() > 0 {
        assert(before[before.len() - 1] == before.last());
        assert forall|i: int|
            0 <= i < before.drop_last().len() && (#[trigger] before.drop_last()[i]).assignments.contains_key(v)
            implies after.drop_last()[i].assignments.contains_key(v) by {
            assert(before[i] == before.drop_last()[i]);
        }
        lemma_lacking_monotone(before.drop_last(), after.drop_last(), v);
    }
}

/// Where every block keeps its value and one block gains one, fewer blocks
/// lack one.
pub proof fn lemma_lacking_decreases(
    before: Seq<BlockView>,
    after: Seq<BlockView>,
    v: VarId,
    gained: int,
)
    requires
        keeps_values(before, after, v),
        0 <= gained < before.len(),
        !before[gained].assignments.contains_key(v),
        after[gained].assignments.contains_key(v),
    ensures
        lacking(after, v) < lacking(before, v),
    decreases before.len(),
{
    assert(before[before.len() - 1] == before.last());
    assert forall|i: int|
        0 <= i < before.drop_last().len() && (#[trigger] before.drop_last()[i]).assignments.contains_key(v)
        implies after.drop_last()[i].assignments.contains_key(v) by {
        assert(before[i] == before.drop_last()[i]);
    }
    if gained == before.len() - 1 {
        lemma_lacking_monotone(before.drop_last(), after.drop_last(), v);
    } else {
        lemma_lacking_decreases(before.drop_last(), after.drop_last(), v, gained);
    }
}

/// Giving one phi other users changes the total by the difference.
pub proof fn lemma_total_users_update(phis: Seq<PhiView>, p: int, phi: PhiView)
    requires
        0 <= p < phis.len(),
    ensures
        total_users(phis.update(p, phi)) + phis[p].users.len() == total_users(phis)
            + phi.users.len(),
    decreases phis.len(),
{
    let updated = phis.update(p, phi);
    if p == phis.len() - 1 {
        assert(updated.drop_last() =~= phis.drop_last());
    } else {
        assert(updated.drop_last() =~= phis.drop_last().update(p, phi));
        lemma_total_users_update(phis.drop_last(), p, phi);
    }
}

impl ProgramView {
    /// A read of `v` in `b` goes on to the one predecessor of `b`: the block
    /// holds no value for `v`, is sealed, and has exactly one predecessor.
    pub open spec fn passes_through(self, b: BlockId, v: VarId) -> bool {
        &&& self.has_block(b)
        &&& !self.block(b).assignments.contains_key(v)
        &&& self.block(b).sealed
        &&& self.block(b).predecessors.len() == 1
    }

    /// `rank` gives every block that a read of `v` passes through a number
    /// above that of its predecessor.
    pub open spec fn ranked_by(self, v: VarId, rank: Seq<nat>) -> bool {
        &&& rank.len() == self.blocks.len()
        &&& forall|b: BlockId| #[trigger]
            self.passes_through(b, v) && self.has_block(self.block(b).predecessors[0])
                ==> rank[self.block(b).predecessors[0].0 as int] < rank[b.0 as int]
    }

    /// Every walk of a read of `v` from a block to its only predecessor comes
    /// to an end: no cycle is made of blocks that such a read passes through.
    pub open spec fn chains_end(self, v: VarId) -> bool {
        exists|rank: Seq<nat>| self.ranked_by(v, rank)
    }

    /// A bound on the number of blocks that a read of `v` in `b` passes
    /// through before it stops.
    pub open spec fn rank(self, v: VarId, b: BlockId) -> nat {
        if self.chains_end(v) && self.has_block(b) {
            (choose|rank: Seq<nat>| self.ranked_by(v, rank))[b.0 as int] + 1
        } else {
            0
        }
    }
}

/// A read that passes through a block goes on to a block of lower rank.
pub proof fn lemma_rank_decreases(s: ProgramView, b: BlockId, v: VarId)
    requires
        s.chains_end(v),
        s.passes_through(b, v),
    ensures
        s.rank(v, s.block(b).predecessors[0]) < s.rank(v, b),
{
    let rank = choose|rank: Seq<nat>| s.ranked_by(v, rank);
    assert(s.ranked_by(v, rank));
}

/// The number of blocks that a read of `v` in `b` passes through before it
/// stops, if these are at most `fuel`.
pub open spec fn steps_left(s: ProgramView, v: VarId, b: BlockId, fuel: nat) -> Option<nat>
    decreases fuel,
{
    if !s.passes_through(b, v) {
        Some(0)
    } else if fuel == 0 {
        None
    } else {
        match steps_left(s, v, s.block(b).predecessors[0], (fuel - 1) as nat) {
            Some(steps) => Some(steps + 1),
            None => None,
        }
    }
}

/// A read of `v` passes through fewer blocks in a row than the program has,
/// wherever it starts.
pub open spec fn walks_are_short(s: ProgramView, v: VarId) -> bool {
    forall|i: int| 0 <= i < s.blocks.len() ==> (#[trigger] short_walk(s, v, i)) is Some
}

/// The number of blocks that a read of `v` in the block at position `i`
/// passes through, if they are fewer than the program has.
pub open spec fn short_walk(s: ProgramView, v: VarId, i: int) -> Option<nat> {
    steps_left(s, v, BlockId(i as usize), s.blocks.len())
}

/// With more fuel a walk is counted as before.
pub proof fn lemma_steps_left_with_more_fuel(
    s: ProgramView,
    v: VarId,
    b: BlockId,
    fuel: nat,
    more: nat,
)
    requires
        steps_left(s, v, b, fuel) is Some,
        fuel <= more,
    ensures
        steps_left(s, v, b, more) == steps_left(s, v, b, fuel),
    decreases fuel,
{
    if s.passes_through(b, v) {
        lemma_steps_left_with_more_fuel(
            s,
            v,
            s.block(b).predecessors[0],
            (fuel - 1) as nat,
            (more - 1) as nat,
        );
    }
}

/// Where the walks are short they come to an end.
pub proof fn lemma_short_walks_end(s: ProgramView, v: VarId)
    requires
        walks_are_short(s, v),
        s.blocks.len() <= usize::MAX,
    ensures
        s.chains_end(v),
{
    let rank = Seq::new(s.blocks.len(), |i: int| short_walk(s, v, i)->Some_0);
    assert forall|b: BlockId| #[trigger]
        s.passes_through(b, v) && s.has_block(
            s.block(b).predecessors[0],
        ) implies rank[s.block(b).predecessors[0].0 as int] < rank[b.0 as int] by {
        let next = s.block(b).predecessors[0];
        assert(short_walk(s, v, b.0 as int) is Some);
        assert(short_walk(s, v, next.0 as int) is Some);
        assert(BlockId(b.0 as int as usize) == b);
        assert(BlockId(next.0 as int as usize) == next);
        lemma_steps_left_with_more_fuel(s, v, next, (s.blocks.len() - 1) as nat, s.blocks.len());
    }
    assert(s.ranked_by(v, rank));
}

/// The positions of the first `count` blocks on the walk of a read of `v`
/// that starts in `b`.
pub open spec fn visited(s: ProgramView, v: VarId, b: BlockId, count: nat) -> Set<int>
    decreases count,
{
    if count == 0 {
        Set::empty()
    } else {
        visited(s, v, s.block(b).predecessors[0], (count - 1) as nat).insert(b.0 as int)
    }
}

/// A walk that does not stop within `fuel` steps has visited `fuel + 1`
/// blocks, each another one: the ranks fall along the walk.
proof fn lemma_long_walk_visits_many(
    s: ProgramView,
    v: VarId,
    b: BlockId,
    fuel: nat,
    rank: Seq<nat>,
)
    requires
        s.ranked_by(v, rank),
        steps_left(s, v, b, fuel) is None,
    ensures
        visited(s, v, b, fuel + 1).finite(),
        visited(s, v, b, fuel + 1).len() == fuel + 1,
        forall|i: int| #[trigger]
            visited(s, v, b, fuel + 1).contains(i) ==> 0 <= i < s.blocks.len() && rank[i]
                <= rank[b.0 as int],
    decreases fuel,
{
    let next = s.block(b).predecessors[0];
    assert(s.passes_through(b, v));
    if fuel == 0 {
        assert(visited(s, v, next, 0) =~= Set::empty());
        assert(visited(s, v, b, 1) =~= Set::<int>::empty().insert(b.0 as int));
    } else {
        assert(steps_left(s, v, next, (fuel - 1) as nat) is None);
        assert(s.passes_through(next, v));
        lemma_long_walk_visits_many(s, v, next, (fuel - 1) as nat, rank);
        let before = visited(s, v, next, fuel);
        assert(!before.contains(b.0 as int));
        assert(visited(s, v, b, fuel + 1) == before.insert(b.0 as int));
    }
}

/// Where the walks come to an end they are short: a walk that passed
/// through as many blocks as there are would have met one of them twice.
pub proof fn lemma_ending_walks_are_short(s: ProgramView, v: VarId)
    requires
        s.chains_end(v),
    ensures
        walks_are_short(s, v),
{
    let rank = choose|rank: Seq<nat>| s.ranked_by(v, rank);
    assert forall|i: int| 0 <= i < s.blocks.len() implies (#[trigger] short_walk(s, v, i)) is Some by {
        if short_walk(s, v, i) is None {
            let b = BlockId(i as usize);
            let count = s.blocks.len();
            lemma_long_walk_visits_many(s, v, b, count, rank);
            let seen = visited(s, v, b, count + 1);
            vstd::set_lib::lemma_int_range(0, count as int);
            assert(seen.subset_of(vstd::set_lib::set_int_range(0, count as int)));
            vstd::set_lib::lemma_len_subset(seen, vstd::set_lib::set_int_range(0, count as int));
        }
    }
}

} // verus!
