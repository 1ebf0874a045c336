//! Index types and the symbol reference built from them.

use oxc::index::Idx;
use vstd::prelude::*;

verus! {

/// Position of a module in the database.
#[derive(Clone, Copy, Debug, PartialEq, Eq, PartialOrd, Ord, Hash, Structural)]
pub struct ModuleIdx {
    pub raw: u32,
}

/// Position of a symbol in its module's table, in order of insertion.
#[derive(Clone, Copy, Debug, PartialEq, Eq, PartialOrd, Ord, Hash, Structural)]
pub struct SymbolId {
    pub raw: u32,
}

/// Identifier of an output chunk.
#[derive(Clone, Copy, Debug, PartialEq, Eq, PartialOrd, Ord, Hash, Structural)]
pub struct ChunkIdx {
    pub raw: u32,
}

/// Handle of one symbol: the module that owns it and its place in that
/// module's table.
#[derive(Clone, Copy, Debug, PartialEq, Eq, Hash, Structural)]
pub struct SymbolRef {
    pub owner: ModuleIdx,
    pub symbol: SymbolId,
}

/// Lets a module index address an `oxc::index::IndexVec`. No position is
/// refused: one beyond `u32::MAX` keeps its low 32 bits.
impl Idx for ModuleIdx {
    fn from_usize(idx: usize) -> (r: Self)
        ensures
            r.raw == idx as u32,
    {
        ModuleIdx { raw: idx as u32 }
    }

    fn index(self) -> (at: usize)
        ensures
            at == self.raw,
    {
        self.raw as usize
    }
}

/// Lets a symbol id address an `oxc::index::IndexVec`. No position is
/// refused: one beyond `u32::MAX` keeps its low 32 bits.
impl Idx for SymbolId {
    fn from_usize(idx: usize) -> (r: Self)
        ensures
            r.raw == idx as u32,
    {
        SymbolId { raw: idx as u32 }
    }

    fn index(self) -> (at: usize)
        ensures
            at == self.raw,
    {
        self.raw as usize
    }
}

} // verus!
