//! One symbol's record.

use crate::ids::{ChunkIdx, SymbolRef};
use crate::text::NamespaceAlias;
use oxc::span::CompactStr;
use vstd::prelude::*;

verus! {

#[derive(Debug)]
pub struct SymbolRefData {
    /// Set where the symbol must be written as a property of a namespace
    /// object.
    pub namespace_alias: Option<NamespaceAlias>,
    /// The identifier as the source has it.
    pub name: CompactStr,
    /// The symbol that this one was merged into; `None` at a root.
    pub link: Option<SymbolRef>,
    /// The chunk that defines the symbol, once chunks are assigned.
    pub chunk_id: Option<ChunkIdx>,
}

impl SymbolRefData {
    /// The record of a symbol as it is declared: a root, with no chunk and
    /// no alias.
    pub open spec fn fresh(name: CompactStr) -> SymbolRefData {
        SymbolRefData { namespace_alias: None, name, link: None, chunk_id: None }
    }

    pub fn new(name: CompactStr) -> (data: Self)
        ensures
            data == Self::fresh(name),
    {
        SymbolRefData { namespace_alias: None, name, link: None, chunk_id: None }
    }
}

} // verus!
