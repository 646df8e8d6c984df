//! On-the-fly construction of static single assignment form.
//!
//! A [`Program`] is built one basic block at a time while a front end writes
//! and reads source-level variables. Phi nodes are placed where control flow
//! merges and are removed again as soon as they turn out to be trivial.
//!
//! The library is verified. What a program holds is modelled in [`model`],
//! and what each operation does to it in [`semantics`]; the executable
//! functions in [`blocks`], [`phi`], [`consts`] and [`program`] are proved
//! to compute exactly that. [`measure`] holds the quantities by which a read
//! comes to an end, and [`laws`] what holds of every program. The modules
//! [`frame`], [`settle`], [`pending`], [`operands`] and [`recorded`] hold
//! the lemmas that the laws rest on. [`table`] holds what is taken for
//! granted about the hash tables, and [`context`] the registry of functions
//! and types of a run context.

pub mod blocks;
pub mod consts;
pub mod context;
pub mod error;
pub mod frame;
pub mod inst;
pub mod laws;
pub mod measure;
pub mod model;
pub mod operands;
pub mod pending;
pub mod phi;
pub mod program;
pub mod recorded;
pub mod semantics;
pub mod settle;
pub mod table;

pub use crate::blocks::{Block, BlockId, Blocks};
pub use crate::consts::{ConstId, ConstValue, Consts};
pub use crate::context::{
    Context, ContextError, FnSignature, Item, Module, ModuleFunction, ModuleInstanceFunction,
    ModuleType, TypeInfo, ValueType, ValueTypeInfo,
};
pub use crate::error::{Error, ErrorKind};
pub use crate::inst::{SsaOp, SsaValue};
pub use crate::phi::{Phi, PhiId, Phis};
pub use crate::program::{Program, VarId};
