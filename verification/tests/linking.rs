use oxc::span::CompactStr;
use symbol_db::{AstSymbols, ModuleIdx, SymbolId, SymbolRef, SymbolRefDb};

fn module(raw: u32) -> ModuleIdx {
    ModuleIdx { raw }
}

fn sym(owner: u32, symbol: u32) -> SymbolRef {
    SymbolRef { owner: ModuleIdx { raw: owner }, symbol: SymbolId { raw: symbol } }
}

fn names(list: &[&str]) -> AstSymbols {
    AstSymbols { names: list.iter().map(|s| CompactStr::new(s)).collect() }
}

/// Module 0 declares `x` and `y`, module 1 declares `z`.
fn two_modules() -> SymbolRefDb {
    let mut db = SymbolRefDb::default();
    db.add_ast_symbols(module(0), names(&["x", "y"]));
    db.add_ast_symbols(module(1), names(&["z"]));
    db
}

/// The links of every record of modules 0 and 1, in order.
fn links(db: &SymbolRefDb) -> Vec<Option<SymbolRef>> {
    let mut all = Vec::new();
    for owner in 0..2u32 {
        let mut symbol = 0u32;
        while db.contains(sym(owner, symbol)) {
            all.push(db.get(sym(owner, symbol)).link);
            symbol += 1;
        }
    }
    all
}

#[test]
fn link_resolves_base_to_target() {
    let mut db = two_modules();
    let tmp = db.create_symbol(module(0), CompactStr::new("tmp"));
    assert_eq!(tmp, sym(0, 2));
    db.link(sym(0, 0), sym(1, 0));
    assert_eq!(db.par_canonical_ref_for(sym(0, 0)), sym(1, 0));
    assert_eq!(db.par_canonical_ref_for(sym(1, 0)), sym(1, 0));
    assert_eq!(db.canonical_ref_for(sym(0, 0)), sym(1, 0));
    assert_eq!(db.canonical_ref_for(sym(1, 0)), sym(1, 0));
    assert_eq!(db.get_original_name(sym(0, 0)).as_str(), "x");
    let before = links(&db);
    db.link(sym(0, 0), sym(1, 0));
    assert_eq!(links(&db), before);
    assert_eq!(before, vec![Some(sym(1, 0)), None, None, None]);
}

#[test]
fn link_resolves_through_two_hops() {
    let mut db = two_modules();
    db.link(sym(0, 1), sym(0, 0));
    db.link(sym(0, 0), sym(1, 0));
    assert_eq!(links(&db), vec![Some(sym(1, 0)), Some(sym(0, 0)), None]);
    assert_eq!(db.par_canonical_ref_for(sym(0, 1)), sym(1, 0));
    assert_eq!(db.canonical_ref_for(sym(0, 1)), sym(1, 0));
    assert_eq!(links(&db), vec![Some(sym(1, 0)), Some(sym(1, 0)), None]);
    assert_eq!(db.par_canonical_ref_for(sym(0, 1)), sym(1, 0));
}

#[test]
fn find_twice_is_find_once() {
    let mut db = two_modules();
    db.link(sym(0, 1), sym(0, 0));
    db.link(sym(0, 0), sym(1, 0));
    for r in [sym(0, 0), sym(0, 1), sym(1, 0)] {
        let once = db.par_canonical_ref_for(r);
        assert_eq!(db.par_canonical_ref_for(once), once);
        let written = db.canonical_ref_for(r);
        assert_eq!(written, once);
        assert_eq!(db.canonical_ref_for(written), once);
        assert_eq!(db.par_canonical_ref_for(r), once);
    }
}

#[test]
fn find_of_a_root_writes_nothing() {
    let mut db = two_modules();
    assert_eq!(db.canonical_ref_for(sym(0, 1)), sym(0, 1));
    assert_eq!(links(&db), vec![None, None, None]);
}

#[test]
fn find_points_only_the_asked_record_at_the_root() {
    let mut db = SymbolRefDb::default();
    db.add_ast_symbols(module(0), names(&["a", "b", "c", "d"]));
    db.link(sym(0, 0), sym(0, 1));
    db.link(sym(0, 1), sym(0, 2));
    db.link(sym(0, 2), sym(0, 3));
    assert_eq!(links(&db), vec![Some(sym(0, 1)), Some(sym(0, 2)), Some(sym(0, 3)), None]);
    assert_eq!(db.canonical_ref_for(sym(0, 0)), sym(0, 3));
    assert_eq!(links(&db), vec![Some(sym(0, 3)), Some(sym(0, 2)), Some(sym(0, 3)), None]);
}

#[test]
fn link_keeps_the_root_of_the_target() {
    let mut db = two_modules();
    db.link(sym(0, 0), sym(0, 1));
    db.link(sym(1, 0), sym(0, 0));
    assert_eq!(db.par_canonical_ref_for(sym(1, 0)), sym(0, 1));
    assert_eq!(db.par_canonical_ref_for(sym(0, 0)), sym(0, 1));
    assert_eq!(db.get(sym(1, 0)).link, Some(sym(0, 1)));
    assert_eq!(db.get(sym(0, 1)).link, None);
}

#[test]
fn link_in_the_other_direction_picks_the_other_root() {
    let mut forward = two_modules();
    forward.link(sym(0, 0), sym(1, 0));
    assert_eq!(forward.par_canonical_ref_for(sym(0, 0)), sym(1, 0));
    assert_eq!(forward.par_canonical_ref_for(sym(1, 0)), sym(1, 0));

    let mut backward = two_modules();
    backward.link(sym(1, 0), sym(0, 0));
    assert_eq!(backward.par_canonical_ref_for(sym(0, 0)), sym(0, 0));
    assert_eq!(backward.par_canonical_ref_for(sym(1, 0)), sym(0, 0));
}

#[test]
fn link_of_a_symbol_to_itself_changes_nothing() {
    let mut db = two_modules();
    db.link(sym(0, 0), sym(0, 0));
    assert_eq!(links(&db), vec![None, None, None]);
    db.link(sym(0, 0), sym(1, 0));
    db.link(sym(0, 0), sym(0, 0));
    db.link(sym(1, 0), sym(1, 0));
    assert_eq!(links(&db), vec![Some(sym(1, 0)), None, None]);
}

#[test]
fn link_inside_one_class_changes_nothing() {
    let mut db = two_modules();
    db.link(sym(0, 1), sym(0, 0));
    db.link(sym(0, 0), sym(1, 0));
    let before = links(&db);
    db.link(sym(1, 0), sym(0, 1));
    db.link(sym(0, 1), sym(1, 0));
    db.link(sym(0, 0), sym(0, 1));
    assert_eq!(links(&db), before);
}

#[test]
fn link_leaves_the_other_classes_alone() {
    let mut db = SymbolRefDb::default();
    db.add_ast_symbols(module(0), names(&["a", "b", "c", "d", "e"]));
    db.link(sym(0, 0), sym(0, 1));
    db.link(sym(0, 2), sym(0, 3));
    db.link(sym(0, 1), sym(0, 3));
    assert_eq!(db.par_canonical_ref_for(sym(0, 0)), sym(0, 3));
    assert_eq!(db.par_canonical_ref_for(sym(0, 1)), sym(0, 3));
    assert_eq!(db.par_canonical_ref_for(sym(0, 2)), sym(0, 3));
    assert_eq!(db.par_canonical_ref_for(sym(0, 3)), sym(0, 3));
    assert_eq!(db.par_canonical_ref_for(sym(0, 4)), sym(0, 4));
}

#[test]
fn every_member_of_a_class_finds_one_root() {
    let mut db = SymbolRefDb::default();
    db.add_ast_symbols(module(0), names(&["a", "b", "c"]));
    db.add_ast_symbols(module(1), names(&["d", "e", "f"]));
    db.link(sym(0, 0), sym(1, 0));
    assert_eq!(db.canonical_ref_for(sym(0, 0)), sym(1, 0));
    db.link(sym(0, 1), sym(0, 0));
    db.link(sym(1, 1), sym(0, 2));
    assert_eq!(db.canonical_ref_for(sym(1, 1)), sym(0, 2));
    db.link(sym(1, 0), sym(1, 1));
    assert_eq!(db.canonical_ref_for(sym(0, 1)), sym(0, 2));
    db.link(sym(1, 2), sym(0, 1));
    for r in [sym(0, 0), sym(0, 1), sym(0, 2), sym(1, 0), sym(1, 1), sym(1, 2)] {
        assert_eq!(db.par_canonical_ref_for(r), sym(0, 2));
        assert_eq!(db.canonical_ref_for(r), sym(0, 2));
    }
    assert_eq!(db.get(sym(0, 2)).link, None);
    for r in [sym(0, 0), sym(0, 1), sym(1, 0), sym(1, 1), sym(1, 2)] {
        assert_eq!(db.get(r).link, Some(sym(0, 2)));
    }
}
