//! The two arenas and what is taken on trust of them.

use crate::ids::{ModuleIdx, SymbolId, SymbolRef};
use crate::record::SymbolRefData;
use crate::text::Rstr;
use oxc::index::IndexVec;
use rustc_hash::{FxBuildHasher, FxHashMap};
use vstd::prelude::*;

verus! {

/// The records of one module, by symbol id. Holds an
/// `oxc::index::IndexVec`, which is a `Vec` indexed by a typed id.
#[verifier::external_body]
#[derive(Debug)]
pub struct SymbolRefDbForModule {
    data: IndexVec<SymbolId, SymbolRefData>,
}

/// The tables of all modules, by module index. Holds an
/// `oxc::index::IndexVec` of tables.
#[verifier::external_body]
#[derive(Debug)]
pub struct SymbolRefDb {
    inner: IndexVec<ModuleIdx, SymbolRefDbForModule>,
}

/// The records that a table holds, in the order of their ids.
pub uninterp spec fn symbol_records(table: SymbolRefDbForModule) -> Seq<SymbolRefData>;

/// The tables that a database holds, in the order of their module indices.
pub uninterp spec fn module_tables(db: SymbolRefDb) -> Seq<SymbolRefDbForModule>;

impl View for SymbolRefDbForModule {
    type V = Seq<SymbolRefData>;

    open spec fn view(&self) -> Seq<SymbolRefData> {
        symbol_records(*self)
    }
}

impl View for SymbolRefDb {
    type V = Seq<Seq<SymbolRefData>>;

    /// The database as a forest: for each module the records of its table.
    open spec fn view(&self) -> Seq<Seq<SymbolRefData>> {
        Seq::new(module_tables(*self).len(), |i: int| symbol_records(module_tables(*self)[i]))
    }
}

/// `IndexVec::new`: a table without records.
#[verifier::external_body]
pub(crate) fn empty_table() -> (table: SymbolRefDbForModule)
    ensures
        symbol_records(table).len() == 0,
{
    SymbolRefDbForModule { data: IndexVec::new() }
}

/// `IndexSlice::len` on a table: the number of its records.
#[verifier::external_body]
pub(crate) fn table_len(table: &SymbolRefDbForModule) -> (n: usize)
    ensures
        n == symbol_records(*table).len(),
{
    table.data.len()
}

/// `IndexVec::push` on a table: the record goes to the end, and the id that
/// comes back is `SymbolId::from_usize` of the place it took.
#[verifier::external_body]
pub(crate) fn table_push(table: &mut SymbolRefDbForModule, data: SymbolRefData) -> (id: SymbolId)
    ensures
        symbol_records(*final(table)) == symbol_records(*old(table)).push(data),
        id.raw == symbol_records(*old(table)).len() as u32,
{
    table.data.push(data)
}

/// Indexing an `IndexVec` by an id, on a table: the record at that place.
#[verifier::external_body]
pub(crate) fn table_at(table: &SymbolRefDbForModule, id: SymbolId) -> (data: &SymbolRefData)
    requires
        id.raw < symbol_records(*table).len(),
    ensures
        *data == symbol_records(*table)[id.raw as int],
{
    &table.data[id]
}

/// Indexing an `IndexVec` by an id for writing, on a table: the record at
/// that place, and no other record changes.
#[verifier::external_body]
pub(crate) fn table_at_mut(table: &mut SymbolRefDbForModule, id: SymbolId) -> (data:
    &mut SymbolRefData)
    requires
        id.raw < symbol_records(*old(table)).len(),
    ensures
        *data == symbol_records(*old(table))[id.raw as int],
        symbol_records(*final(table)) == symbol_records(*old(table)).update(
            id.raw as int,
            *final(data),
        ),
{
    &mut table.data[id]
}

/// `IndexVec::new`: a database without tables.
#[verifier::external_body]
pub(crate) fn empty_db() -> (db: SymbolRefDb)
    ensures
        module_tables(db).len() == 0,
{
    SymbolRefDb { inner: IndexVec::new() }
}

/// `IndexSlice::len` on a database: the number of its tables.
#[verifier::external_body]
pub(crate) fn db_len(db: &SymbolRefDb) -> (n: usize)
    ensures
        n == module_tables(*db).len(),
{
    db.inner.len()
}

/// `IndexVec::resize_with` on a database, with empty tables to fill: the
/// tables below `new_len` stay, and each place added holds a table without
/// records.
#[verifier::external_body]
pub(crate) fn db_resize(db: &mut SymbolRefDb, new_len: usize)
    ensures
        module_tables(*final(db)).len() == new_len,
        forall|i: int|
            0 <= i < new_len && i < module_tables(*old(db)).len() ==> module_tables(*final(db))[i]
                == module_tables(*old(db))[i],
        forall|i: int|
            module_tables(*old(db)).len() <= i < new_len ==> symbol_records(
                #[trigger] module_tables(*final(db))[i],
            ).len() == 0,
{
    db.inner.resize_with(new_len, SymbolRefDbForModule::default);
}

/// Indexing an `IndexVec` by a module index, on a database: the table at
/// that place.
#[verifier::external_body]
pub(crate) fn db_at(db: &SymbolRefDb, idx: ModuleIdx) -> (table: &SymbolRefDbForModule)
    requires
        idx.raw < module_tables(*db).len(),
    ensures
        *table == module_tables(*db)[idx.raw as int],
{
    &db.inner[idx]
}

/// Indexing an `IndexVec` by a module index for writing, on a database: the
/// table at that place, and no other table changes.
#[verifier::external_body]
pub(crate) fn db_at_mut(db: &mut SymbolRefDb, idx: ModuleIdx) -> (table: &mut SymbolRefDbForModule)
    requires
        idx.raw < module_tables(*old(db)).len(),
    ensures
        *table == module_tables(*old(db))[idx.raw as int],
        module_tables(*final(db)) == module_tables(*old(db)).update(idx.raw as int, *final(table)),
{
    &mut db.inner[idx]
}

/// `rustc_hash::FxBuildHasher`, the hasher of the maps of names.
#[verifier::external_type_specification]
#[verifier::external_body]
pub struct ExFxBuildHasher(FxBuildHasher);

/// `HashMap::get` on a map of names that hashes with `rustc_hash`: the name
/// stored under `key`, and `None` where the map holds none under it.
#[verifier::external_body]
pub(crate) fn name_in<'a>(names: &'a FxHashMap<SymbolRef, Rstr>, key: SymbolRef) -> (name: Option<
    &'a Rstr,
>)
    ensures
        match name {
            Some(found) => names@.contains_key(key) && *found == names@[key],
            None => !names@.contains_key(key),
        },
{
    names.get(&key)
}

} // verus!
