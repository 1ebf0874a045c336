use oxc::span::CompactStr;
use rustc_hash::FxHashMap;
use symbol_db::{
    AstSymbols, ChunkIdx, ModuleIdx, NamespaceAlias, Rstr, SymbolId, SymbolRef, SymbolRefDb,
};

fn at(owner: u32, symbol: u32) -> SymbolRef {
    SymbolRef { owner: ModuleIdx { raw: owner }, symbol: SymbolId { raw: symbol } }
}

fn symbols(list: &[&str]) -> AstSymbols {
    AstSymbols { names: list.iter().map(|s| CompactStr::new(s)).collect() }
}

fn sample() -> SymbolRefDb {
    let mut db = SymbolRefDb::default();
    db.add_ast_symbols(ModuleIdx { raw: 0 }, symbols(&["x", "y"]));
    db.add_ast_symbols(ModuleIdx { raw: 1 }, symbols(&["z"]));
    db
}

fn name_map(entries: &[(SymbolRef, &str)]) -> FxHashMap<SymbolRef, Rstr> {
    let mut map = FxHashMap::default();
    for (key, name) in entries {
        map.insert(*key, Rstr(CompactStr::new(name)));
    }
    map
}

#[test]
fn fresh_records_are_bare_roots() {
    let db = sample();
    let data = db.get(at(0, 1));
    assert_eq!(data.name.as_str(), "y");
    assert_eq!(data.link, None);
    assert_eq!(data.chunk_id, None);
    assert!(data.namespace_alias.is_none());
}

#[test]
fn get_mut_writes_one_record() {
    let mut db = sample();
    db.get_mut(at(0, 1)).chunk_id = Some(ChunkIdx { raw: 4 });
    assert_eq!(db.get(at(0, 1)).chunk_id, Some(ChunkIdx { raw: 4 }));
    assert_eq!(db.get(at(0, 1)).name.as_str(), "y");
    assert_eq!(db.get(at(0, 0)).chunk_id, None);
    assert_eq!(db.get(at(1, 0)).chunk_id, None);
    assert_eq!(db.get(at(0, 0)).name.as_str(), "x");
    assert_eq!(db.get(at(1, 0)).name.as_str(), "z");
}

#[test]
fn link_moves_no_chunk_and_no_alias() {
    let mut db = sample();
    db.get_mut(at(0, 0)).chunk_id = Some(ChunkIdx { raw: 1 });
    db.get_mut(at(1, 0)).chunk_id = Some(ChunkIdx { raw: 2 });
    db.get_mut(at(0, 0)).namespace_alias = Some(NamespaceAlias {
        property_name: Rstr(CompactStr::new("a")),
        namespace_ref: at(0, 1),
    });
    db.link(at(0, 0), at(1, 0));
    assert_eq!(db.canonical_ref_for(at(0, 0)), at(1, 0));

    let base = db.get(at(0, 0));
    assert_eq!(base.chunk_id, Some(ChunkIdx { raw: 1 }));
    let alias = base.namespace_alias.as_ref().unwrap();
    assert_eq!(alias.property_name.0.as_str(), "a");
    assert_eq!(alias.namespace_ref, at(0, 1));
    assert_eq!(base.name.as_str(), "x");

    let target = db.get(at(1, 0));
    assert_eq!(target.chunk_id, Some(ChunkIdx { raw: 2 }));
    assert!(target.namespace_alias.is_none());
    assert_eq!(target.name.as_str(), "z");

    let other = db.get(at(0, 1));
    assert_eq!(other.chunk_id, None);
    assert!(other.namespace_alias.is_none());
}

#[test]
fn original_name_does_not_follow_links() {
    let mut db = sample();
    db.link(at(0, 0), at(1, 0));
    db.link(at(0, 1), at(0, 0));
    assert_eq!(db.get_original_name(at(0, 0)).as_str(), "x");
    assert_eq!(db.get_original_name(at(0, 1)).as_str(), "y");
    assert_eq!(db.get_original_name(at(1, 0)).as_str(), "z");
}

#[test]
fn canonical_name_is_the_name_of_the_root() {
    let mut db = sample();
    db.link(at(0, 1), at(0, 0));
    db.link(at(0, 0), at(1, 0));
    let chosen = name_map(&[(at(1, 0), "z$1"), (at(0, 0), "x$1")]);
    assert_eq!(db.canonical_name_for(at(0, 1), &chosen).0.as_str(), "z$1");
    assert_eq!(db.canonical_name_for(at(0, 0), &chosen).0.as_str(), "z$1");
    assert_eq!(db.canonical_name_for(at(1, 0), &chosen).0.as_str(), "z$1");
    assert_eq!(db.get(at(0, 1)).link, Some(at(0, 0)));
}

#[test]
fn canonical_name_of_an_unlinked_symbol_is_its_own() {
    let db = sample();
    let chosen = name_map(&[(at(0, 0), "a"), (at(0, 1), "b"), (at(1, 0), "c")]);
    assert_eq!(db.canonical_name_for(at(0, 0), &chosen).0.as_str(), "a");
    assert_eq!(db.canonical_name_for(at(0, 1), &chosen).0.as_str(), "b");
    assert_eq!(db.canonical_name_for(at(1, 0), &chosen).0.as_str(), "c");
}

#[test]
fn try_canonical_name_tells_a_missing_root() {
    let mut db = sample();
    db.link(at(0, 0), at(1, 0));
    let chosen = name_map(&[(at(0, 0), "x$1"), (at(0, 1), "y$1")]);
    assert!(db.try_canonical_name_for(at(0, 0), &chosen).is_none());
    assert!(db.try_canonical_name_for(at(1, 0), &chosen).is_none());
    let found = db.try_canonical_name_for(at(0, 1), &chosen);
    assert_eq!(found.map(|name| name.0.as_str()), Some("y$1"));
    let empty = name_map(&[]);
    assert!(db.try_canonical_name_for(at(0, 1), &empty).is_none());
}
