//! The operations of the database.

use crate::forest::{
    canonical, compressed, created, fresh_records, grown, is_root, lemma_canonical_of_root,
    lemma_compress, lemma_cut, lemma_extension, lemma_union, lemma_with_link_keeps_metadata,
    link_at, linked, links_kept, metadata_kept, present, record_at, registered, steps_to_root,
    table_size, walk, well_formed, with_record,
};
use crate::ids::{ModuleIdx, SymbolId, SymbolRef};
use crate::record::SymbolRefData;
use crate::storage::{
    db_at, db_at_mut, db_len, db_resize, empty_db, empty_table, module_tables, name_in,
    table_at, table_at_mut, table_len, table_push, SymbolRefDb, SymbolRefDbForModule,
};
use crate::text::{AstSymbols, Rstr};
use oxc::index::Idx;
use oxc::span::CompactStr;
use rustc_hash::FxHashMap;
use vstd::prelude::*;

verus! {

impl Default for SymbolRefDbForModule {
    /// A table without records.
    fn default() -> (table: Self)
        ensures
            table@.len() == 0,
    {
        empty_table()
    }
}

impl Default for SymbolRefDb {
    /// A database without modules.
    fn default() -> (db: Self)
        ensures
            db@.len() == 0,
            well_formed(db@),
    {
        empty_db()
    }
}

impl SymbolRefDbForModule {
    /// The table that `names` make: one fresh record for each, in their
    /// order.
    pub fn from_names(names: Vec<CompactStr>) -> (table: Self)
        ensures
            table@ == fresh_records(names@),
    {
        let mut table = empty_table();
        let ghost all = names@;
        for name in it: names.into_iter()
            invariant
                it.seq() == all,
                table@ == fresh_records(all.take(it.index() as int)),
        {
            table_push(&mut table, SymbolRefData::new(name));
            proof {
                assert(table@ =~= fresh_records(all.take(it.index() + 1)));
            }
        }
        proof {
            assert(all.take(all.len() as int) =~= all);
        }
        table
    }

    /// The number of records.
    pub fn len(&self) -> (n: usize)
        ensures
            n == self@.len(),
    {
        table_len(self)
    }

    /// The record of the symbol `id`.
    pub fn get(&self, id: SymbolId) -> (data: &SymbolRefData)
        requires
            id.raw < self@.len(),
        ensures
            *data == self@[id.raw as int],
    {
        table_at(self, id)
    }
}

impl SymbolRefDb {
    /// Is `refer` the handle of a record of this database?
    pub fn contains(&self, refer: SymbolRef) -> (found: bool)
        ensures
            found == present(self@, refer),
    {
        if refer.owner.index() < db_len(self) {
            refer.symbol.index() < table_len(db_at(self, refer.owner))
        } else {
            false
        }
    }

    /// Makes room for module `module_idx`: the database grows, by empty
    /// tables, to hold that index, and never shrinks.
    fn ensure_exact_capacity(&mut self, module_idx: ModuleIdx)
        requires
            module_idx.raw < usize::MAX,
        ensures
            final(self)@ == grown(old(self)@, (module_idx.raw + 1) as nat),
    {
        let new_len: usize = module_idx.index() + 1;
        if db_len(self) < new_len {
            db_resize(self, new_len);
            proof {
                assert(self@ =~~= grown(old(self)@, (module_idx.raw + 1) as nat));
            }
        }
    }

    /// Registers the symbols of module `module_id`: its table becomes one
    /// fresh record for each name, in their order, in place of whatever
    /// table stood there. The tables of the other modules stay as they are;
    /// where the database did not reach `module_id`, it grows by empty
    /// tables.
    pub fn add_ast_symbols(&mut self, module_id: ModuleIdx, ast_symbols: AstSymbols)
        requires
            module_id.raw < usize::MAX,
        ensures
            final(self)@ == registered(old(self)@, module_id.raw as int, ast_symbols.names@),
            well_formed(old(self)@) && table_size(old(self)@, module_id.raw as int)
                <= ast_symbols.names@.len() ==> well_formed(final(self)@),
            well_formed(old(self)@) && table_size(old(self)@, module_id.raw as int) == 0
                ==> forall|x: SymbolRef|
                present(old(self)@, x) ==> #[trigger] canonical(final(self)@, x) == canonical(
                    old(self)@,
                    x,
                ),
    {
        self.ensure_exact_capacity(module_id);
        let table = SymbolRefDbForModule::from_names(ast_symbols.names);
        proof {
            assert(self@.len() == module_tables(*self).len());
        }
        let slot = db_at_mut(self, module_id);
        *slot = table;
        proof {
            let f = old(self)@;
            let g = registered(f, module_id.raw as int, ast_symbols.names@);
            assert(self@ =~~= g);
            if well_formed(f) && table_size(f, module_id.raw as int) <= ast_symbols.names@.len() {
                lemma_cut(f, g);
            }
            if well_formed(f) && table_size(f, module_id.raw as int) == 0 {
                lemma_extension(f, g);
            }
        }
    }

    /// Adds a symbol called `name` behind the table of module `owner`, and
    /// gives back its handle. The new record is a root; every other record
    /// stays as it is.
    pub fn create_symbol(&mut self, owner: ModuleIdx, name: CompactStr) -> (refer: SymbolRef)
        requires
            owner.raw < usize::MAX,
            table_size(old(self)@, owner.raw as int) <= u32::MAX,
        ensures
            refer.owner == owner,
            refer.symbol.raw == table_size(old(self)@, owner.raw as int),
            final(self)@ == created(old(self)@, owner.raw as int, name),
            !present(old(self)@, refer),
            present(final(self)@, refer),
            record_at(final(self)@, refer) == SymbolRefData::fresh(name),
            links_kept(old(self)@, final(self)@),
            metadata_kept(old(self)@, final(self)@),
            well_formed(old(self)@) ==> well_formed(final(self)@),
            well_formed(old(self)@) ==> canonical(final(self)@, refer) == refer,
            well_formed(old(self)@) ==> forall|x: SymbolRef|
                present(old(self)@, x) ==> #[trigger] canonical(final(self)@, x) == canonical(
                    old(self)@,
                    x,
                ),
    {
        self.ensure_exact_capacity(owner);
        proof {
            assert(self@.len() == module_tables(*self).len());
        }
        let table = db_at_mut(self, owner);
        let symbol_id = table_push(table, SymbolRefData::new(name));
        let refer = SymbolRef { owner, symbol: symbol_id };
        proof {
            let f = old(self)@;
            let g = created(f, owner.raw as int, name);
            assert(self@ =~~= g);
            if well_formed(f) {
                lemma_extension(f, g);
                lemma_canonical_of_root(g, refer);
            }
        }
        refer
    }

    /// The record of `refer`.
    pub fn get(&self, refer: SymbolRef) -> (data: &SymbolRefData)
        requires
            present(self@, refer),
        ensures
            *data == record_at(self@, refer),
    {
        table_at(db_at(self, refer.owner), refer.symbol)
    }

    /// The record of `refer`, for writing. What is written there is the only
    /// change to the database.
    pub fn get_mut(&mut self, refer: SymbolRef) -> (data: &mut SymbolRefData)
        requires
            present(old(self)@, refer),
        ensures
            *data == record_at(old(self)@, refer),
            final(self)@ == with_record(old(self)@, refer, *final(data)),
    {
        table_at_mut(db_at_mut(self, refer.owner), refer.symbol)
    }

    /// The canonical representative of `target`, found by following the
    /// links. Nothing is written.
    pub fn par_canonical_ref_for(&self, target: SymbolRef) -> (root: SymbolRef)
        requires
            well_formed(self@),
            present(self@, target),
        ensures
            root == canonical(self@, target),
            present(self@, root),
            is_root(self@, root),
    {
        let mut canonical = target;
        let ghost mut steps = steps_to_root(self@, target);
        loop
            invariant
                well_formed(self@),
                present(self@, canonical),
                is_root(self@, walk(self@, canonical, steps)),
                walk(self@, canonical, steps) == crate::forest::canonical(self@, target),
            decreases steps,
        {
            match self.get(canonical).link {
                Some(founded) => {
                    proof {
                        assert(link_at(self@, canonical) == Some(founded));
                        steps = (steps - 1) as nat;
                    }
                    canonical = founded;
                },
                None => {
                    return canonical;
                },
            }
        }
    }

    /// The canonical representative of `target`. Where `target` is not that
    /// root itself, its link is set straight to the root, so that the next
    /// search from it takes one step. No other record changes, and no
    /// record's representative.
    pub fn canonical_ref_for(&mut self, target: SymbolRef) -> (root: SymbolRef)
        requires
            well_formed(old(self)@),
            present(old(self)@, target),
        ensures
            root == canonical(old(self)@, target),
            present(old(self)@, root),
            is_root(old(self)@, root),
            final(self)@ == compressed(old(self)@, target),
            root == target ==> *final(self) == *old(self),
            well_formed(final(self)@),
            forall|x: SymbolRef| present(final(self)@, x) == present(old(self)@, x),
            forall|x: SymbolRef|
                present(old(self)@, x) ==> #[trigger] canonical(final(self)@, x) == canonical(
                    old(self)@,
                    x,
                ),
            metadata_kept(old(self)@, final(self)@),
    {
        let canonical = self.par_canonical_ref_for(target);
        if target != canonical {
            self.get_mut(target).link = Some(canonical);
            proof {
                lemma_compress(old(self)@, target);
                lemma_with_link_keeps_metadata(old(self)@, target, Some(canonical));
            }
        }
        canonical
    }

    /// Merges the symbols that `base` stands with into those of `target`:
    /// the root of `base` gets the root of `target` as its parent. Where the
    /// two have one root already, nothing changes.
    pub fn link(&mut self, base: SymbolRef, target: SymbolRef)
        requires
            well_formed(old(self)@),
            present(old(self)@, base),
            present(old(self)@, target),
        ensures
            final(self)@ == linked(old(self)@, base, target),
            canonical(old(self)@, base) == canonical(old(self)@, target) ==> *final(self) == *old(
                self,
            ),
            well_formed(final(self)@),
            forall|x: SymbolRef| present(final(self)@, x) == present(old(self)@, x),
            forall|x: SymbolRef|
                present(old(self)@, x) ==> #[trigger] canonical(final(self)@, x) == (if canonical(
                    old(self)@,
                    x,
                ) == canonical(old(self)@, base) {
                    canonical(old(self)@, target)
                } else {
                    canonical(old(self)@, x)
                }),
            metadata_kept(old(self)@, final(self)@),
    {
        let base_root = self.par_canonical_ref_for(base);
        let target_root = self.par_canonical_ref_for(target);
        if base_root != target_root {
            self.get_mut(base_root).link = Some(target_root);
            proof {
                lemma_union(old(self)@, base_root, target_root);
                lemma_with_link_keeps_metadata(old(self)@, base_root, Some(target_root));
            }
        }
    }

    /// The name of `refer` as its source has it, whatever it is linked to.
    pub fn get_original_name(&self, refer: SymbolRef) -> (name: &CompactStr)
        requires
            present(self@, refer),
        ensures
            *name == record_at(self@, refer).name,
    {
        &self.get(refer).name
    }

    /// The name chosen for the canonical representative of `refer`, where
    /// `canonical_names` holds one; `None` where it holds none.
    pub fn try_canonical_name_for<'name>(
        &self,
        refer: SymbolRef,
        canonical_names: &'name FxHashMap<SymbolRef, Rstr>,
    ) -> (name: Option<&'name Rstr>)
        requires
            well_formed(self@),
            present(self@, refer),
        ensures
            match name {
                Some(found) => canonical_names@.contains_key(canonical(self@, refer)) && *found
                    == canonical_names@[canonical(self@, refer)],
                None => !canonical_names@.contains_key(canonical(self@, refer)),
            },
    {
        let canonical_ref = self.par_canonical_ref_for(refer);
        name_in(canonical_names, canonical_ref)
    }

    /// The name chosen for the canonical representative of `refer`. The map
    /// must hold a name for that representative.
    pub fn canonical_name_for<'name>(
        &self,
        refer: SymbolRef,
        canonical_names: &'name FxHashMap<SymbolRef, Rstr>,
    ) -> (name: &'name Rstr)
        requires
            well_formed(self@),
            present(self@, refer),
            canonical_names@.contains_key(canonical(self@, refer)),
        ensures
            *name == canonical_names@[canonical(self@, refer)],
    {
        self.try_canonical_name_for(refer, canonical_names).unwrap()
    }
}

} // verus!
