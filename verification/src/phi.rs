//! The phi store.
use vstd::prelude::*;

use crate::blocks::BlockId;
use crate::error::{outcome, Error, ErrorKind};
use crate::model::phis_build;
use crate::model::phis_get;
use crate::model::phis_operands_of;
use crate::model::phis_register_use;
use crate::model::phis_take_users_of;
use crate::model::PhiView;
use crate::program::VarId;

verus! {

/// The identifier of a phi node: its position in the phi store.
#[derive(Debug, Clone, Copy, PartialEq, Eq, Hash, PartialOrd, Ord, Structural)]
pub struct PhiId(pub usize);

/// A phi node.
pub struct Phi {
    /// The block that the phi belongs to.
    block_id: BlockId,
    /// The operands: for each predecessor of the block, where to look up.
    operands: Vec<(BlockId, VarId)>,
    /// The slots that were registered as holding this phi.
    users: Vec<(BlockId, VarId)>,
}

impl View for Phi {
    type V = PhiView;

    closed spec fn view(&self) -> PhiView {
        PhiView { block_id: self.block_id, operands: self.operands@, users: self.users@ }
    }
}

impl Phi {
    /// The block that the phi belongs to.
    pub fn block_id(&self) -> (block_id: BlockId)
        ensures
            block_id == self@.block_id,
    {
        self.block_id
    }

    /// The operands of the phi, one per predecessor once it is populated.
    pub fn operands(&self) -> (operands: &Vec<(BlockId, VarId)>)
        ensures
            operands@ == self@.operands,
    {
        &self.operands
    }

    /// Append an operand to the phi.
    pub fn push_operand(&mut self, block_id: BlockId, var: VarId)
        ensures
            final(self)@ == old(self)@.with_operands(old(self)@.operands.push((block_id, var))),
    {
        self.operands.push((block_id, var));
    }

    /// The slots registered as users of the phi.
    pub fn users(&self) -> (users: &Vec<(BlockId, VarId)>)
        ensures
            users@ == self@.users,
    {
        &self.users
    }
}

/// The phis of a program.
pub struct Phis {
    phis: Vec<Phi>,
}

impl View for Phis {
    type V = Seq<PhiView>;

    closed spec fn view(&self) -> Seq<PhiView> {
        Seq::new(self.phis@.len(), |i: int| self.phis@[i]@)
    }
}

impl Default for Phis {
    fn default() -> (phis: Self)
        ensures
            phis@ == Seq::<PhiView>::empty(),
    {
        Phis::new()
    }
}

impl Phis {
    /// An empty phi store.
    pub fn new() -> (phis: Self)
        ensures
            phis@ == Seq::<PhiView>::empty(),
    {
        let phis = Phis { phis: Vec::new() };
        assert(phis@ =~= Seq::<PhiView>::empty());
        phis
    }

    /// The number of phis that were built.
    pub fn len(&self) -> (len: usize)
        ensures
            len == self@.len(),
    {
        self.phis.len()
    }

    /// Register the slot as a user of the phi.
    pub fn register_use(&mut self, phi_id: PhiId, block_id: BlockId, var: VarId) -> (result: Result<
        (),
        Error,
    >)
        ensures
            (final(self)@, outcome(result)) == phis_register_use(old(self)@, phi_id, block_id, var),
    {
        if phi_id.0 >= self.phis.len() {
            return Err(Error::new(ErrorKind::MissingPhi { phi_id }));
        }
        let phi = &mut self.phis[phi_id.0];
        phi.users.push((block_id, var));
        assert(self@ =~= phis_register_use(old(self)@, phi_id, block_id, var).0);
        Ok(())
    }

    /// Take the users of the phi, which keeps none.
    pub fn take_users_of(&mut self, phi_id: PhiId) -> (users: Vec<(BlockId, VarId)>)
        ensures
            (final(self)@, users@) == phis_take_users_of(old(self)@, phi_id),
    {
        let mut users: Vec<(BlockId, VarId)> = Vec::new();
        if phi_id.0 < self.phis.len() {
            let phi = &mut self.phis[phi_id.0];
            std::mem::swap(&mut phi.users, &mut users);
            assert(self@ =~= phis_take_users_of(old(self)@, phi_id).0);
        }
        users
    }

    /// Build a phi in the block and return its identifier.
    pub fn build(&mut self, block_id: BlockId) -> (id: PhiId)
        ensures
            (final(self)@, id) == phis_build(old(self)@, block_id),
    {
        let id = PhiId(self.phis.len());
        self.phis.push(Phi { block_id, operands: Vec::new(), users: Vec::new() });
        assert(self@ =~= phis_build(old(self)@, block_id).0);
        id
    }

    /// The phi with the given identifier.
    pub fn get(&self, phi_id: PhiId) -> (result: Result<&Phi, Error>)
        ensures
            match result {
                Ok(phi) => phis_get(self@, phi_id) == Ok::<PhiView, ErrorKind>(phi@),
                Err(error) => phis_get(self@, phi_id) == Err::<PhiView, ErrorKind>(error@),
            },
    {
        if phi_id.0 < self.phis.len() {
            Ok(&self.phis[phi_id.0])
        } else {
            Err(Error::new(ErrorKind::MissingPhi { phi_id }))
        }
    }

    /// The phi with the given identifier, to be changed. What it is when the
    /// reference is given up is what the store holds in its place.
    pub fn get_mut(&mut self, phi_id: PhiId) -> (result: Result<&mut Phi, Error>)
        ensures
            match result {
                Ok(phi) => phis_get(old(self)@, phi_id) == Ok::<PhiView, ErrorKind>(phi@)
                    && final(self)@ =~= old(self)@.update(phi_id.0 as int, final(phi)@),
                Err(error) => phis_get(old(self)@, phi_id) == Err::<PhiView, ErrorKind>(error@)
                    && final(self)@ == old(self)@,
            },
    {
        if phi_id.0 < self.phis.len() {
            Ok(&mut self.phis[phi_id.0])
        } else {
            Err(Error::new(ErrorKind::MissingPhi { phi_id }))
        }
    }

    /// The operands of the phi; none where it does not exist.
    pub fn operands_of(&self, phi_id: PhiId) -> (operands: &[(BlockId, VarId)])
        ensures
            operands@ == phis_operands_of(self@, phi_id),
    {
        if phi_id.0 < self.phis.len() {
            self.phis[phi_id.0].operands.as_slice()
        } else {
            &[]
        }
    }
}

} // verus!
