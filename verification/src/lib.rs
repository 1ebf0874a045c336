//! Symbol resolution database of a module bundler.
//!
//! Every declared identifier of every module is a record addressed by a
//! [`SymbolRef`]. Records that stand for the same binding are merged in a
//! disjoint-set forest, and every record resolves to the root of its tree.

pub mod ids;
pub mod text;
pub mod record;
pub mod forest;
pub mod laws;
pub mod storage;
pub mod symbol_ref_db;

pub use ids::{ChunkIdx, ModuleIdx, SymbolId, SymbolRef};
pub use record::SymbolRefData;
pub use storage::{SymbolRefDb, SymbolRefDbForModule};
pub use text::{AstSymbols, NamespaceAlias, Rstr};
