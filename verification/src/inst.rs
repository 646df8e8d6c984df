//! The values that a variable can hold in single assignment form.
use vstd::prelude::*;

use crate::consts::ConstId;
use crate::phi::PhiId;
use crate::program::VarId;

verus! {

/// A value in single assignment form.
#[derive(Debug, Clone, Copy, PartialEq, Eq, Hash, PartialOrd, Ord, Structural)]
pub enum SsaValue {
    /// The value of a variable that no reaching path defines.
    Undef,
    /// A constant of the constant pool.
    Const(ConstId),
    /// The result of a phi node.
    Phi(PhiId),
    /// A binary operation on two variables.
    Op(SsaOp, VarId, VarId),
}

/// The kind of a binary operation.
#[derive(Debug, Clone, Copy, PartialEq, Eq, Hash, PartialOrd, Ord, Structural)]
pub enum SsaOp {
    /// Addition.
    Add,
    /// Subtraction.
    Sub,
    /// Division.
    Div,
    /// Multiplication.
    Mul,
}

} // verus!
