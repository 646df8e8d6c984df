//! The errors that building a program can raise.
use vstd::prelude::*;

use crate::blocks::BlockId;
use crate::inst::SsaValue;
use crate::phi::PhiId;
use crate::program::VarId;

verus! {

/// The kind of an error.
#[derive(Debug, Clone, Copy, PartialEq, Eq, Structural)]
pub enum ErrorKind {
    /// A lookup across procedures, which is not available.
    GlobalLookupNotImplemented,
    /// A block entry is missing.
    MissingEntry,
    /// The block store holds no block with this id.
    MissingBlock { block_id: BlockId },
    /// The block was sealed before.
    BlockAlreadySealed { block_id: BlockId },
    /// The phi store holds no phi with this id.
    MissingPhi { phi_id: PhiId },
    /// A rewrite would violate single assignment.
    ConflictingAssignment { assign_id: VarId },
    /// An operand lookup found something other than the phi it expected.
    BadPhiReroute { phi_id: PhiId, value: SsaValue },
    /// An entry among a block's incomplete phis is no phi.
    IncompletePhiNode { block_id: BlockId, value: SsaValue },
    /// The variable was never written in the block that was looked up.
    MissingVar { id: VarId },
}

/// An error raised by this library.
#[derive(Debug)]
pub struct Error {
    kind: ErrorKind,
}

impl View for Error {
    type V = ErrorKind;

    closed spec fn view(&self) -> ErrorKind {
        self.kind
    }
}

/// What an operation returned, with an error reduced to its kind.
pub open spec fn outcome<T>(result: Result<T, Error>) -> Result<T, ErrorKind> {
    match result {
        Ok(value) => Ok(value),
        Err(error) => Err(error@),
    }
}

impl Error {
    /// Construct an error of the given kind.
    pub fn new(kind: ErrorKind) -> (error: Self)
        ensures
            error@ == kind,
    {
        Self::_new(kind)
    }

/// An error of the given kind.
    fn _new(kind: ErrorKind) -> (error: Self)
        ensures
            error@ == kind,
    {
        Self { kind }
    }

    /// The kind of this error.
    pub fn into_kind(self) -> (kind: ErrorKind)
        ensures
            kind == self@,
    {
        self.kind
    }
}

} // verus!
