//! The program under construction.
use vstd::prelude::*;

use crate::semantics;
use crate::blocks::BlockId;
use crate::blocks::Blocks;
use crate::consts::ConstId;
use crate::consts::Consts;
use crate::consts::ConstValue;
use crate::error::Error;
use crate::error::ErrorKind;
use crate::error::outcome;
use crate::frame::extends;
use crate::frame::lemma_add_phi_operands_extends;
use crate::frame::lemma_cascade_takes_users;
use crate::frame::lemma_extends_chains_end;
use crate::frame::lemma_extends_lacking;
use crate::frame::lemma_read_extends;
use crate::frame::lemma_write_phi_gains;
use crate::inst::SsaValue;
use crate::measure::lacking;
use crate::measure::lemma_ending_walks_are_short;
use crate::measure::lemma_rank_decreases;
use crate::measure::lemma_short_walks_end;
use crate::measure::short_walk;
use crate::measure::steps_left;
use crate::measure::total_users;
use crate::measure::walks_are_short;
use crate::model::blocks_take_incomplete_phis;
use crate::model::ProgramView;
use crate::phi::PhiId;
use crate::phi::Phis;
use crate::semantics::Verdict;

verus! {

/// The identifier of a source-level variable.
#[derive(Debug, Clone, Copy, PartialEq, Eq, Hash, PartialOrd, Ord, Structural)]
pub struct VarId(pub usize);

/// A program that is being built in single assignment form.
pub struct Program {
    /// The number of the next variable.
    var_id: usize,
    /// The blocks.
    blocks: Blocks,
    /// The constant pool.
    consts: Consts,
    /// The phis.
    phis: Phis,
    /// The slots that a replaced phi left holding another phi.
    rerouted: Ghost<Set<(BlockId, VarId)>>,
}

impl View for Program {
    type V = ProgramView;

    closed spec fn view(&self) -> ProgramView {
        ProgramView {
            var_id: self.var_id,
            blocks: self.blocks@,
            consts: self.consts@,
            phis: self.phis@,
            rerouted: self.rerouted@,
        }
    }
}

impl Default for Program {
    fn default() -> (program: Self)
        ensures
            program@ == ProgramView::empty(),
    {
        Program::new()
    }
}

impl Program {
    /// A program without blocks, variables, constants or phis.
    pub fn new() -> (program: Self)
        ensures
            program@ == ProgramView::empty(),
    {
        Program {
            var_id: 0,
            blocks: Blocks::new(),
            consts: Consts::new(),
            phis: Phis::new(),
            rerouted: Ghost(Set::empty()),
        }
    }

    /// The constant with the given identifier, if the pool holds one.
    pub fn get_constant(&self, const_id: ConstId) -> (value: Option<&ConstValue>)
        ensures
            value == (if const_id.0 < self@.consts.len() {
                Some(&self@.consts[const_id.0 as int])
            } else {
                None
            }),
    {
        self.consts.get(const_id)
    }

    /// The blocks of the program.
    pub fn blocks(&self) -> (blocks: &Blocks)
        ensures
            blocks@ == self@.blocks,
    {
        &self.blocks
    }

    /// The phis of the program.
    pub fn phis(&self) -> (phis: &Phis)
        ensures
            phis@ == self@.phis,
    {
        &self.phis
    }

    /// Define a new block.
    pub fn block(&mut self) -> (id: BlockId)
        ensures
            (final(self)@, id) == semantics::block(old(self)@),
    {
        self.blocks.block()
    }

    /// Define a new variable, which belongs to no block.
    pub fn var(&mut self) -> (var: VarId)
        requires
            old(self)@.var_id < usize::MAX,
        ensures
            (final(self)@, var) == semantics::var(old(self)@),
    {
        let var = VarId(self.var_id);
        self.var_id += 1;
        var
    }

    /// Add `to` to the predecessors of `from`.
    pub fn add_predecessor(&mut self, from: BlockId, to: BlockId) -> (result: Result<(), Error>)
        ensures
            (final(self)@, outcome(result)) == semantics::add_predecessor(old(self)@, from, to),
    {
        self.blocks.add_predecessor(from, to)
    }

    /// Assign the value to the variable in the block.
    pub fn write_var(&mut self, block_id: BlockId, var: VarId, value: SsaValue) -> (result: Result<
        (),
        Error,
    >)
        ensures
            (final(self)@, outcome(result)) == semantics::write_var(
                old(self)@,
                block_id,
                var,
                value,
            ),
    {
        if !self.blocks.contains(block_id) {
            return Err(Error::new(ErrorKind::MissingBlock { block_id }));
        }
        if let SsaValue::Phi(phi_id) = value {
            match self.phis.register_use(phi_id, block_id, var) {
                Ok(_) => {},
                Err(error) => {
                    return Err(error);
                },
            }
        }
        let result = self.blocks.register_assignment(block_id, var, value);
        self.rerouted = Ghost(self.rerouted@.remove((block_id, var)));
        result
    }

    /// Hand out a new variable, and assign the value to `var_id` in the
    /// block.
    pub fn write(&mut self, block_id: BlockId, var_id: VarId, value: SsaValue) -> (result: Result<
        VarId,
        Error,
    >)
        requires
            old(self)@.var_id < usize::MAX,
        ensures
            (final(self)@, outcome(result)) == semantics::write(
                old(self)@,
                block_id,
                var_id,
                value,
            ),
    {
        let var = self.var();
        match self.write_var(block_id, var_id, value) {
            Ok(_) => Ok(var),
            Err(error) => Err(error),
        }
    }

    /// Add the constant to the pool and assign it to the variable in the
    /// block.
    pub fn write_constant(&mut self, block_id: BlockId, var_id: VarId, value: ConstValue) -> (result:
        Result<(), Error>)
        ensures
            (final(self)@, outcome(result)) == semantics::write_constant(
                old(self)@,
                block_id,
                var_id,
                value,
            ),
    {
        let const_id = self.consts.constant(value);
        self.write_var(block_id, var_id, SsaValue::Const(const_id))
    }
}

/// Whether the list holds the phi.
fn holds_phi(list: &Vec<PhiId>, phi_id: PhiId) -> (found: bool)
    ensures
        found == list@.contains(phi_id),
{
    let mut i: usize = 0;
    while i < list.len()
        invariant
            i <= list.len(),
            forall|j: int| 0 <= j < i ==> list@[j] != phi_id,
        decreases list.len() - i,
    {
        if list[i] == phi_id {
            return true;
        }
        i += 1;
    }
    false
}

/// Replacing the uses of one more user is replacing the value of its slot,
/// where its block holds one.
proof fn lemma_replace_next_use(
    s: ProgramView,
    users: Seq<(BlockId, VarId)>,
    same: SsaValue,
    j: int,
)
    requires
        0 <= j < users.len(),
        s.blocks.len() <= usize::MAX,
    ensures
        ({
            let before = semantics::replace_uses(s, users.take(j), same).blocks;
            let after = semantics::replace_uses(s, users.take(j + 1), same).blocks;
            let b = users[j].0;
            let v = users[j].1;
            if s.holds(b, v) {
                &&& before[b.0 as int].assignments.contains_key(v)
                &&& after == before.update(
                    b.0 as int,
                    before[b.0 as int].with_assignments(
                        before[b.0 as int].assignments.insert(v, same),
                    ),
                )
            } else {
                after == before
            }
        }),
{
    let before = semantics::replace_uses(s, users.take(j), same).blocks;
    let after = semantics::replace_uses(s, users.take(j + 1), same).blocks;
    let b = users[j].0;
    let v = users[j].1;
    let fewer = users.take(j);
    let more = users.take(j + 1);
    assert(more[j] == users[j]);
    assert forall|slot: (BlockId, VarId)|
        more.contains(slot) <==> fewer.contains(slot) || slot == users[j] by {
        if more.contains(slot) {
            let k = choose|k: int| 0 <= k < more.len() && more[k] == slot;
            if k < j {
                assert(fewer[k] == slot);
            }
        }
        if fewer.contains(slot) {
            let k = choose|k: int| 0 <= k < fewer.len() && fewer[k] == slot;
            assert(more[k] == slot);
        }
    }
    if s.holds(b, v) {
        let target = before.update(
            b.0 as int,
            before[b.0 as int].with_assignments(before[b.0 as int].assignments.insert(v, same)),
        );
        assert forall|i: int| 0 <= i < after.len() implies after[i] == target[i] by {
            assert(after[i].assignments =~= target[i].assignments) by {
                assert forall|w: VarId| after[i].assignments.contains_key(w) implies #[trigger]
                    after[i].assignments[w] == target[i].assignments[w] by {
                    let slot = (BlockId(i as usize), w);
                    assert(users.take(j + 1).contains(slot) <==> users.take(j).contains(slot)
                        || slot == users[j]);
                }
            }
        }
        assert(after =~= target);
    } else {
        assert forall|i: int| 0 <= i < after.len() implies after[i] == before[i] by {
            assert(after[i].assignments =~= before[i].assignments) by {
                assert forall|w: VarId| after[i].assignments.contains_key(w) implies #[trigger]
                    after[i].assignments[w] == before[i].assignments[w] by {
                    let slot = (BlockId(i as usize), w);
                    assert(users.take(j + 1).contains(slot) <==> users.take(j).contains(slot)
                        || slot == users[j]);
                }
            }
        }
        assert(after =~= before);
    }
}

/// With one more user, the phi to try next is the one found before, or the
/// value given to the users where the slot of that user holds it.
proof fn lemma_cascade_next_user(
    s: ProgramView,
    users: Seq<(BlockId, VarId)>,
    same: SsaValue,
    this: PhiId,
    j: int,
)
    requires
        0 <= j < users.len(),
    ensures
        semantics::cascade_target(s, users.take(j + 1), same, this) == (
        if semantics::cascade_target(s, users.take(j), same, this) is Some {
            semantics::cascade_target(s, users.take(j), same, this)
        } else if s.holds(users[j].0, users[j].1) {
            match same {
                SsaValue::Phi(q) => if q != this {
                    Some(q)
                } else {
                    None
                },
                _ => None,
            }
        } else {
            None
        }),
{
    let fewer = users.take(j);
    let more = users.take(j + 1);
    assert(more[j] == users[j]);
    if exists|k: int| 0 <= k < more.len() && #[trigger] s.holds(more[k].0, more[k].1) {
        let k = choose|k: int| 0 <= k < more.len() && #[trigger] s.holds(more[k].0, more[k].1);
        if k < j {
            assert(fewer[k] == more[k]);
            assert(s.holds(fewer[k].0, fewer[k].1));
        }
    }
    if exists|k: int| 0 <= k < fewer.len() && #[trigger] s.holds(fewer[k].0, fewer[k].1) {
        let k = choose|k: int| 0 <= k < fewer.len() && #[trigger] s.holds(fewer[k].0, fewer[k].1);
        assert(fewer[k] == more[k]);
        assert(s.holds(more[k].0, more[k].1));
    }
    if s.holds(users[j].0, users[j].1) {
        assert(s.holds(more[j].0, more[j].1));
    }
}

/// Replacing the uses of no user changes no block.
proof fn lemma_replace_no_use(s: ProgramView, same: SsaValue)
    ensures
        semantics::replace_uses(s, Seq::empty(), same).blocks == s.blocks,
{
    let after = semantics::replace_uses(s, Seq::empty(), same).blocks;
    assert forall|i: int| 0 <= i < after.len() implies after[i] == s.blocks[i] by {
        assert(after[i].assignments =~= s.blocks[i].assignments);
    }
    assert(after =~= s.blocks);
}

impl Program {
    /// Look through the operands of the phi: whether those that are not the
    /// phi itself all hold one value, and which.
    fn scan_operands(&self, phi_id: PhiId) -> (result: Result<Verdict, Error>)
        requires
            self@.has_phi(phi_id),
        ensures
            outcome(result) == semantics::scan_operands(
                self@,
                self@.phi(phi_id).operands,
                0,
                None,
                phi_id,
            ),
    {
        let operands = self.phis.operands_of(phi_id);
        let mut same: Option<SsaValue> = None;
        let mut i: usize = 0;
        while i < operands.len()
            invariant
                i <= operands@.len(),
                operands@ == self@.phi(phi_id).operands,
                semantics::scan_operands(self@, operands@, i as int, same, phi_id)
                    == semantics::scan_operands(self@, operands@, 0, None, phi_id),
            decreases operands.len() - i,
        {
            let block_id = operands[i].0;
            let var = operands[i].1;
            let value = match self.blocks.get_assignment(block_id, var) {
                Ok(value) => value,
                Err(error) => {
                    return Err(error);
                },
            };
            let repeated = match same {
                Some(found) => found == value,
                None => false,
            };
            if repeated || value == SsaValue::Phi(phi_id) {
            } else if same.is_some() {
                return Ok(Verdict::Merges);
            } else {
                same = Some(value);
            }
            i += 1;
        }
        Ok(Verdict::Trivial(same))
    }

    /// The phi that the slot holds, if it holds one other than `this`.
    fn filter_phi_user(&self, block_id: BlockId, var: VarId, this: PhiId) -> (user: Option<PhiId>)
        ensures
            user == (match crate::model::blocks_try_get_assignment(self@.blocks, block_id, var) {
                Some(SsaValue::Phi(phi_id)) => if phi_id == this {
                    None
                } else {
                    Some(phi_id)
                },
                _ => None,
            }),
    {
        if let Some(SsaValue::Phi(new_id)) = self.blocks.try_get_assignment(block_id, var) {
            if new_id == this {
                return None;
            }
            Some(new_id)
        } else {
            None
        }
    }

    /// Give every slot among the users that holds a value `same` instead.
    fn replace_uses(&mut self, users: &Vec<(BlockId, VarId)>, same: SsaValue)
        ensures
            final(self)@ == semantics::replace_uses(old(self)@, users@, same),
    {
        let ghost start = self@;
        let mut j: usize = 0;
        proof {
            self.blocks.lemma_len_fits();
            lemma_replace_no_use(start, same);
            assert(users@.take(0) =~= Seq::empty());
        }
        while j < users.len()
            invariant
                j <= users@.len(),
                start.blocks.len() <= usize::MAX,
                self.blocks@ == semantics::replace_uses(start, users@.take(j as int), same).blocks,
                self.phis@ == start.phis,
                self.consts@ == start.consts,
                self.var_id == start.var_id,
                self.rerouted@ == start.rerouted,
            decreases users.len() - j,
        {
            let block_id = users[j].0;
            let var = users[j].1;
            proof {
                lemma_replace_next_use(start, users@, same, j as int);
            }
            if let Some(slot) = self.blocks.get_assignment_mut(block_id, var) {
                *slot = same;
            }
            j += 1;
        }
        proof {
            assert(users@.take(users@.len() as int) =~= users@);
        }
        self.rerouted = Ghost(semantics::replace_uses(start, users@, same).rerouted);
    }

    /// The phis that the users hold after the replacement, each once.
    fn phi_users(&self, users: &Vec<(BlockId, VarId)>, same: SsaValue, this: PhiId) -> (phi_users:
        Vec<PhiId>)
        requires
            exists|before: ProgramView| self@ == semantics::replace_uses(before, users@, same),
        ensures
            phi_users@ == (match semantics::cascade_target(self@, users@, same, this) {
                Some(phi_id) => seq![phi_id],
                None => Seq::empty(),
            }),
    {
        let ghost before = choose|before: ProgramView|
            self@ == semantics::replace_uses(before, users@, same);
        let mut phi_users: Vec<PhiId> = Vec::new();
        let mut j: usize = 0;
        while j < users.len()
            invariant
                j <= users@.len(),
                self@ == semantics::replace_uses(before, users@, same),
                phi_users@ == (match semantics::cascade_target(
                    self@,
                    users@.take(j as int),
                    same,
                    this,
                ) {
                    Some(phi_id) => seq![phi_id],
                    None => Seq::empty(),
                }),
            decreases users.len() - j,
        {
            let block_id = users[j].0;
            let var = users[j].1;
            proof {
                self.blocks.lemma_len_fits();
                lemma_cascade_next_user(self@, users@, same, this, j as int);
                if self@.holds(block_id, var) {
                    assert(users@.contains((block_id, var)));
                    assert(BlockId(block_id.0 as int as usize) == block_id);
                    assert(self@.value(block_id, var) == same);
                }
            }
            if let Some(phi_id) = self.filter_phi_user(block_id, var, this) {
                proof {
                    if phi_users@.len() > 0 {
                        assert(phi_users@ == seq![phi_id]);
                        assert(phi_users@[0] == phi_id);
                    }
                }
                if !holds_phi(&phi_users, phi_id) {
                    phi_users.push(phi_id);
                    assert(phi_users@ =~= seq![phi_id]);
                }
            }
            j += 1;
        }
        proof {
            assert(users@.take(users@.len() as int) =~= users@);
        }
        phi_users
    }

    /// Remove the phi if it is trivial: if its operands, but for the phi
    /// itself, all hold one value. That value takes the place of the phi in
    /// every slot registered as its user, and is returned; a phi that merges
    /// two values stays and is returned itself.
    fn try_remove_trivial_phi(&mut self, phi_id: PhiId) -> (result: Result<SsaValue, Error>)
        ensures
            (final(self)@, outcome(result)) == semantics::try_remove_trivial_phi(
                old(self)@,
                phi_id,
            ),
        decreases total_users(old(self)@.phis),
    {
        let ghost start = self@;
        if let Err(error) = self.phis.get(phi_id) {
            return Err(error);
        }
        let found = match self.scan_operands(phi_id) {
            Ok(Verdict::Trivial(found)) => found,
            Ok(Verdict::Merges) => {
                return Ok(SsaValue::Phi(phi_id));
            },
            Err(error) => {
                return Err(error);
            },
        };
        let users = self.phis.take_users_of(phi_id);
        let same = match found {
            Some(value) => value,
            None => SsaValue::Undef,
        };
        self.replace_uses(&users, same);
        let ghost replaced = self@;
        let phi_users = self.phi_users(&users, same, phi_id);
        proof {
            if semantics::cascade_target(replaced, users@, same, phi_id) is Some {
                lemma_cascade_takes_users(start, phi_id, same);
            }
        }
        let mut k: usize = 0;
        while k < phi_users.len()
            invariant
                start == old(self)@,
                k <= phi_users@.len(),
                phi_users@.len() <= 1,
                phi_users@.len() == 1 ==> total_users(replaced.phis) < total_users(start.phis)
                    && semantics::cascade_target(replaced, users@, same, phi_id) == Some(
                    phi_users@[0],
                ),
                k == 0 ==> self@ == replaced,
                k == 1 ==> self@ == semantics::try_remove_trivial_phi(replaced, phi_users@[0]).0
                    && semantics::try_remove_trivial_phi(replaced, phi_users@[0]).1 is Ok,
                semantics::try_remove_trivial_phi(start, phi_id) == (if phi_users@.len() == 1 {
                    let next = semantics::try_remove_trivial_phi(replaced, phi_users@[0]);
                    (
                        next.0,
                        match next.1 {
                            Err(e) => Err(e),
                            Ok(_) => Ok(same),
                        },
                    )
                } else {
                    (replaced, Ok(same))
                }),
            decreases phi_users.len() - k,
        {
            match self.try_remove_trivial_phi(phi_users[k]) {
                Ok(_) => {},
                Err(error) => {
                    return Err(error);
                },
            }
            k += 1;
        }
        Ok(same)
    }
}

impl Program {
    /// Whether a read of the variable in the block goes on to the only
    /// predecessor of the block, and to which.
    fn passes_through(&self, block_id: BlockId, var: VarId) -> (next: Option<BlockId>)
        ensures
            next == (if self@.passes_through(block_id, var) {
                Some(self@.block(block_id).predecessors[0])
            } else {
                None
            }),
    {
        if !self.blocks.contains(block_id) {
            return None;
        }
        if self.blocks.try_get_assignment(block_id, var).is_some() {
            return None;
        }
        if !self.blocks.is_sealed(block_id) {
            return None;
        }
        self.blocks.only_predecessor(block_id)
    }

    /// Whether every read of the variable comes to an end, so that the
    /// variable can be read: whether a read, wherever it starts, passes
    /// through no more blocks in a row than the program has.
    pub fn reads_end(&self, var: VarId) -> (ends: bool)
        ensures
            ends == self@.chains_end(var),
    {
        proof {
            if self@.chains_end(var) {
                lemma_ending_walks_are_short(self@, var);
            }
        }
        let count = self.blocks.as_slice().len();
        let mut i: usize = 0;
        while i < count
            invariant
                self@.chains_end(var) ==> walks_are_short(self@, var),
                count == self@.blocks.len(),
                i <= count,
                forall|j: int| 0 <= j < i ==> (#[trigger] short_walk(self@, var, j)) is Some,
            decreases count - i,
        {
            let mut current = BlockId(i);
            let mut fuel = count;
            let mut stopped = false;
            while !stopped
                invariant
                    self@.chains_end(var) ==> walks_are_short(self@, var),
                    count == self@.blocks.len(),
                    fuel <= count,
                    i < count,
                    !stopped ==> (steps_left(self@, var, current, fuel as nat) is Some
                        <==> short_walk(self@, var, i as int) is Some),
                    stopped ==> short_walk(self@, var, i as int) is Some,
                decreases fuel + (if stopped { 0int } else { 1int }),
            {
                match self.passes_through(current, var) {
                    None => {
                        stopped = true;
                    },
                    Some(next) => {
                        if fuel == 0 {
                            return false;
                        }
                        current = next;
                        fuel -= 1;
                    },
                }
            }
            i += 1;
        }
        proof {
            lemma_short_walks_end(self@, var);
        }
        true
    }

    /// The value of the variable in the block. The value that the block
    /// holds is returned as it is; a block that holds none is read through
    /// its predecessors.
    ///
    /// The walks from a sealed block without a value to its only predecessor
    /// must come to an end: through a cycle of such blocks the read would
    /// never return.
    pub fn read(&mut self, block_id: BlockId, var: VarId) -> (result: Result<SsaValue, Error>)
        requires
            old(self)@.chains_end(var),
        ensures
            (final(self)@, outcome(result)) == semantics::read(old(self)@, block_id, var),
        decreases lacking(old(self)@.blocks, var), 1nat, old(self)@.rank(var, block_id), 1nat,
    {
        if !self.blocks.contains(block_id) {
            return Err(Error::new(ErrorKind::MissingBlock { block_id }));
        }
        if let Some(value) = self.blocks.try_get_assignment(block_id, var) {
            return Ok(value);
        }
        self.read_recursive(block_id, var)
    }

    /// The value of the variable in a block that holds none.
    fn read_recursive(&mut self, block_id: BlockId, var: VarId) -> (result: Result<SsaValue, Error>)
        requires
            old(self)@.chains_end(var),
            !old(self)@.holds(block_id, var),
        ensures
            (final(self)@, outcome(result)) == semantics::read_recursive(
                old(self)@,
                block_id,
                var,
            ),
        decreases lacking(old(self)@.blocks, var), 1nat, old(self)@.rank(var, block_id), 0nat,
    {
        if !self.blocks.is_sealed(block_id) {
            let phi_id = self.phis.build(block_id);
            let value = SsaValue::Phi(phi_id);
            match self.blocks.register_incomplete_phi(block_id, var, value) {
                Ok(_) => {},
                Err(error) => {
                    return Err(error);
                },
            }
            match self.phis.register_use(phi_id, block_id, var) {
                Ok(_) => {},
                Err(error) => {
                    return Err(error);
                },
            }
            Ok(value)
        } else if let Some(predecessor) = self.blocks.only_predecessor(block_id) {
            proof {
                lemma_rank_decreases(self@, block_id, var);
            }
            self.read(predecessor, var)
        } else {
            proof {
                lemma_write_phi_gains(self@, block_id, var);
            }
            let phi_id = self.phis.build(block_id);
            match self.write_var(block_id, var, SsaValue::Phi(phi_id)) {
                Ok(_) => {},
                Err(error) => {
                    return Err(error);
                },
            }
            self.add_phi_operands(block_id, var, phi_id)
        }
    }

    /// Give the phi its operands: the variable is read in every predecessor
    /// of the block that owns the phi, in their order. Then the phi is
    /// removed if it is trivial.
    fn add_phi_operands(&mut self, block_id: BlockId, var: VarId, phi_id: PhiId) -> (result: Result<
        SsaValue,
        Error,
    >)
        requires
            old(self)@.chains_end(var),
        ensures
            (final(self)@, outcome(result)) == semantics::add_phi_operands(
                old(self)@,
                block_id,
                var,
                phi_id,
            ),
        decreases lacking(old(self)@.blocks, var), 3nat, 0nat, 0nat,
    {
        let ghost start = self@;
        let phi_block_id = match self.phis.get(phi_id) {
            Ok(phi) => phi.block_id(),
            Err(error) => {
                return Err(error);
            },
        };
        if let Some(predecessors) = self.blocks.take_predecessors(phi_block_id) {
            let ghost taken = self@;
            proof {
                assert(extends(start, taken));
                lemma_extends_lacking(start, taken, var);
                lemma_extends_chains_end(start, taken, var);
            }
            let mut i: usize = 0;
            while i < predecessors.len()
                invariant
                    start == old(self)@,
                    i <= predecessors@.len(),
                    self@.chains_end(var),
                    taken.chains_end(var),
                    lacking(self@.blocks, var) <= lacking(start.blocks, var),
                    semantics::read_operands(self@, predecessors@, i as int, var, phi_id)
                        == semantics::read_operands(taken, predecessors@, 0, var, phi_id),
                    semantics::add_phi_operands(start, block_id, var, phi_id) == ({
                        let filled = semantics::read_operands(taken, predecessors@, 0, var, phi_id);
                        match filled.1 {
                            Err(e) => (filled.0, Err(e)),
                            Ok(_) => semantics::try_remove_trivial_phi(
                                filled.0.with_blocks(
                                    crate::model::blocks_insert_predecessors(
                                        filled.0.blocks,
                                        phi_block_id,
                                        predecessors@,
                                    ),
                                ),
                                phi_id,
                            ),
                        }
                    }),
                decreases predecessors.len() - i,
            {
                let predecessor = predecessors[i];
                let ghost before = self@;
                proof {
                    lemma_read_extends(before, predecessor, var);
                }
                match self.read(predecessor, var) {
                    Ok(_) => {},
                    Err(error) => {
                        return Err(error);
                    },
                }
                match self.phis.get_mut(phi_id) {
                    Ok(phi) => {
                        phi.push_operand(predecessor, var);
                    },
                    Err(error) => {
                        return Err(error);
                    },
                }
                proof {
                    assert(extends(before, self@));
                    lemma_extends_lacking(before, self@, var);
                    lemma_extends_chains_end(before, self@, var);
                }
                i += 1;
            }
            self.blocks.insert_predecessors(phi_block_id, predecessors);
        }
        self.try_remove_trivial_phi(phi_id)
    }

    /// Seal the block: its predecessors are final. The phis that waited for
    /// this are given their operands, in the order in which they were
    /// registered.
    ///
    /// For each variable that such a phi stands for, the walks from a sealed
    /// block without a value to its only predecessor must come to an end.
    pub fn seal(&mut self, block_id: BlockId) -> (result: Result<(), Error>)
        requires
            forall|i: int|
                0 <= i < old(self)@.waiting(block_id).len() ==> old(self)@.chains_end(
                    (#[trigger] old(self)@.waiting(block_id)[i]).0,
                ),
        ensures
            (final(self)@, outcome(result)) == semantics::seal(old(self)@, block_id),
    {
        let ghost start = self@;
        let entries = self.blocks.take_incomplete_phis(block_id);
        let ghost taken = self@;
        proof {
            assert(extends(start, taken));
            assert forall|j: int| 0 <= j < entries@.len() implies taken.chains_end(
                (#[trigger] entries@[j]).0,
            ) by {
                let listed = start.waiting(block_id);
                assert(start.chains_end(listed[j].0));
                lemma_extends_chains_end(start, taken, entries@[j].0);
            }
        }
        let mut i: usize = 0;
        while i < entries.len()
            invariant
                start == old(self)@,
                taken == start.with_blocks(blocks_take_incomplete_phis(start.blocks, block_id).0),
                entries@ == blocks_take_incomplete_phis(start.blocks, block_id).1,
                i <= entries@.len(),
                forall|j: int|
                    0 <= j < entries@.len() ==> self@.chains_end((#[trigger] entries@[j]).0),
                semantics::complete_phis(self@, block_id, entries@, i as int)
                    == semantics::complete_phis(taken, block_id, entries@, 0),
            decreases entries.len() - i,
        {
            let var = entries[i].0;
            let phi_id = match entries[i].1 {
                SsaValue::Phi(phi_id) => phi_id,
                value => {
                    return Err(Error::new(ErrorKind::IncompletePhiNode { block_id, value }));
                },
            };
            let ghost before = self@;
            proof {
                lemma_add_phi_operands_extends(before, block_id, var, phi_id);
            }
            match self.add_phi_operands(block_id, var, phi_id) {
                Ok(_) => {},
                Err(error) => {
                    return Err(error);
                },
            }
            proof {
                assert forall|j: int| 0 <= j < entries@.len() implies self@.chains_end(
                    (#[trigger] entries@[j]).0,
                ) by {
                    lemma_extends_chains_end(before, self@, entries@[j].0);
                }
            }
            i += 1;
        }
        self.blocks.seal(block_id)
    }
}

} // verus!
