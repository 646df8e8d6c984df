//! The constant pool.
use vstd::prelude::*;

verus! {

/// The identifier of a constant: its position in the pool.
#[derive(Debug, Clone, Copy, PartialEq, Eq, Hash, PartialOrd, Ord, Structural)]
pub struct ConstId(pub usize);

/// The payload of a constant. The pool stores and returns it and reads
/// nothing in it.
#[derive(Debug, Clone, PartialEq, Eq)]
pub enum ConstValue {
    /// The unit value.
    Unit,
    /// A byte.
    Byte(u8),
    /// A character.
    Char(char),
    /// A boolean.
    Bool(bool),
    /// An integer.
    Integer(i64),
    /// A floating point number, held as the bits of its IEEE 754 encoding.
    Float(u64),
    /// A string.
    String(String),
    /// A byte string.
    Bytes(Vec<u8>),
}

/// The constants of a program, in the order in which they were interned.
#[derive(Debug)]
pub struct Consts {
    consts: Vec<ConstValue>,
}

impl View for Consts {
    type V = Seq<ConstValue>;

    closed spec fn view(&self) -> Seq<ConstValue> {
        self.consts@
    }
}

impl Default for Consts {
    fn default() -> (consts: Self)
        ensures
            consts@ == Seq::<ConstValue>::empty(),
    {
        Consts::new()
    }
}

impl Consts {
    /// An empty pool.
    pub fn new() -> (consts: Self)
        ensures
            consts@ == Seq::<ConstValue>::empty(),
    {
        Consts { consts: Vec::new() }
    }

    /// Append the constant to the pool and return its identifier.
    pub fn constant(&mut self, value: ConstValue) -> (id: ConstId)
        ensures
            id.0 == old(self)@.len(),
            final(self)@ == old(self)@.push(value),
    {
        let const_id = ConstId(self.consts.len());
        self.consts.push(value);
        const_id
    }

    /// The constant with the given identifier, if the pool holds one.
    pub fn get(&self, id: ConstId) -> (value: Option<&ConstValue>)
        ensures
            value == (if id.0 < self@.len() {
                Some(&self@[id.0 as int])
            } else {
                None
            }),
    {
        if id.0 < self.consts.len() {
            Some(&self.consts[id.0])
        } else {
            None
        }
    }
}

} // verus!
