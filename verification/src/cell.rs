//! The tagged cells that the arena stores.

use vstd::prelude::*;

verus! {

/// Index of the reserved nil sentinel slot. It is never allocated and never
/// stands on the free list.
pub const NIL_INDEX: usize = 0;

/// The tagged payload of one arena cell.
#[derive(Copy, Clone, Debug, PartialEq, Eq, Structural)]
pub enum CellType {
    /// An integer literal; the cell's tail is unused.
    Number(i32),
    /// A reference into the symbol table; the cell's tail is unused.
    Symbol(usize),
    /// A cons cell: the payload holds the head index, the cell's tail holds
    /// the tail index.
    Cons(usize),
    /// An unallocated slot; the cell's tail links to the next free slot.
    Free,
}

/// One slot of the arena: a tagged value plus a secondary index whose
/// meaning depends on the tag.
#[derive(Copy, Clone, Debug, PartialEq, Eq, Structural)]
pub struct Cell {
    pub val: CellType,
    pub tail: usize,
}

impl Cell {
    /// A free cell whose free-list link is the nil sentinel.
    pub fn empty() -> (c: Cell)
        ensures
            c == (Cell { val: CellType::Free, tail: NIL_INDEX }),
    {
        Cell { val: CellType::Free, tail: NIL_INDEX }
    }

    pub fn new(val: CellType, tail: usize) -> (c: Cell)
        ensures
            c == (Cell { val, tail }),
    {
        Cell { val, tail }
    }
}

} // verus!
