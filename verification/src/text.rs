//! Names as the analysis hands them over.

use crate::ids::SymbolRef;
use oxc::span::CompactStr;
use vstd::prelude::*;

verus! {

/// `oxc::span::CompactStr`, an immutable owned string. Nothing is stated of
/// what it holds: names are stored and handed back as they came.
#[verifier::external_type_specification]
#[verifier::external_body]
pub struct ExCompactStr(CompactStr);

/// A name chosen for output.
#[derive(Debug)]
pub struct Rstr(pub CompactStr);

/// Marks a symbol that stands for a property of a namespace object: each use
/// of it is written as `namespace_ref.property_name`.
#[derive(Debug)]
pub struct NamespaceAlias {
    pub property_name: Rstr,
    pub namespace_ref: SymbolRef,
}

/// The symbols that the analysis of one module declared: their names, in the
/// order of their ids.
#[derive(Debug)]
pub struct AstSymbols {
    pub names: Vec<CompactStr>,
}

} // verus!
