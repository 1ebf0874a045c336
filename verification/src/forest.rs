//! The disjoint-set forest that the links of a database form.
//!
//! A forest is the database seen as a value: for each module the sequence of
//! its records. A record's `link` is its parent; a record without a link is a
//! root, and stands for every record whose chain of links ends at it.

use crate::ids::SymbolRef;
use crate::record::SymbolRefData;
use oxc::span::CompactStr;
use vstd::prelude::*;

verus! {

/// Is `r` the handle of a record of `f`?
pub open spec fn present(f: Seq<Seq<SymbolRefData>>, r: SymbolRef) -> bool {
    r.owner.raw < f.len() && r.symbol.raw < f[r.owner.raw as int].len()
}

/// The record that `r` names.
pub open spec fn record_at(f: Seq<Seq<SymbolRefData>>, r: SymbolRef) -> SymbolRefData {
    f[r.owner.raw as int][r.symbol.raw as int]
}

/// The parent of `r`, if it has one.
pub open spec fn link_at(f: Seq<Seq<SymbolRefData>>, r: SymbolRef) -> Option<SymbolRef> {
    record_at(f, r).link
}

pub open spec fn is_root(f: Seq<Seq<SymbolRefData>>, r: SymbolRef) -> bool {
    link_at(f, r) is None
}

/// Where `n` steps along the links lead from `r`. A root is never left.
pub open spec fn walk(f: Seq<Seq<SymbolRefData>>, r: SymbolRef, n: nat) -> SymbolRef
    decreases n,
{
    if n == 0 {
        r
    } else {
        match link_at(f, r) {
            Some(parent) => walk(f, parent, (n - 1) as nat),
            None => r,
        }
    }
}

/// Some number of steps leads from `r` to a root.
pub open spec fn reaches_root(f: Seq<Seq<SymbolRefData>>, r: SymbolRef) -> bool {
    exists|n: nat| is_root(f, #[trigger] walk(f, r, n))
}

/// Every link names a record of the forest.
pub open spec fn links_closed(f: Seq<Seq<SymbolRefData>>) -> bool {
    forall|r: SymbolRef|
        present(f, r) ==> match #[trigger] link_at(f, r) {
            Some(parent) => present(f, parent),
            None => true,
        }
}

/// No chain of links runs in a circle: each ends at a root.
pub open spec fn acyclic(f: Seq<Seq<SymbolRefData>>) -> bool {
    forall|r: SymbolRef| #[trigger] present(f, r) ==> reaches_root(f, r)
}

/// The invariant of a database: its links stay inside it and form a forest.
pub open spec fn well_formed(f: Seq<Seq<SymbolRefData>>) -> bool {
    links_closed(f) && acyclic(f)
}

/// A number of steps that leads from `r` to its root.
pub open spec fn steps_to_root(f: Seq<Seq<SymbolRefData>>, r: SymbolRef) -> nat {
    choose|n: nat| is_root(f, #[trigger] walk(f, r, n))
}

/// The canonical representative of `r`: the root at the end of its chain.
pub open spec fn canonical(f: Seq<Seq<SymbolRefData>>, r: SymbolRef) -> SymbolRef {
    walk(f, r, steps_to_root(f, r))
}

/// `f` with the record of `r` replaced.
pub open spec fn with_record(
    f: Seq<Seq<SymbolRefData>>,
    r: SymbolRef,
    data: SymbolRefData,
) -> Seq<Seq<SymbolRefData>> {
    f.update(r.owner.raw as int, f[r.owner.raw as int].update(r.symbol.raw as int, data))
}

/// `f` with the link of `r` replaced, and nothing else of its record.
pub open spec fn with_link(
    f: Seq<Seq<SymbolRefData>>,
    r: SymbolRef,
    link: Option<SymbolRef>,
) -> Seq<Seq<SymbolRefData>> {
    with_record(f, r, SymbolRefData { link, ..record_at(f, r) })
}

/// A root is where every walk from it stays.
pub proof fn lemma_walk_from_root(f: Seq<Seq<SymbolRefData>>, r: SymbolRef, n: nat)
    requires
        is_root(f, r),
    ensures
        walk(f, r, n) == r,
{
}

/// Walking `n + m` steps is walking `n` steps and then `m` more.
pub proof fn lemma_walk_split(f: Seq<Seq<SymbolRefData>>, r: SymbolRef, n: nat, m: nat)
    ensures
        walk(f, r, n + m) == walk(f, walk(f, r, n), m),
    decreases n,
{
    if n > 0 {
        match link_at(f, r) {
            Some(parent) => {
                lemma_walk_split(f, parent, (n - 1) as nat, m);
                assert((n + m - 1) as nat == (n - 1) as nat + m);
            },
            None => {
                lemma_walk_from_root(f, r, m);
            },
        }
    }
}

/// Once a walk has reached a root, more steps change nothing.
pub proof fn lemma_walk_settles(f: Seq<Seq<SymbolRefData>>, r: SymbolRef, n: nat, m: nat)
    requires
        is_root(f, walk(f, r, n)),
        n <= m,
    ensures
        walk(f, r, m) == walk(f, r, n),
{
    lemma_walk_split(f, r, n, (m - n) as nat);
    lemma_walk_from_root(f, walk(f, r, n), (m - n) as nat);
    assert(n + (m - n) as nat == m);
}

/// Whatever number of steps reaches a root reaches the canonical one.
pub proof fn lemma_canonical_is_walk(f: Seq<Seq<SymbolRefData>>, r: SymbolRef, n: nat)
    requires
        is_root(f, walk(f, r, n)),
    ensures
        canonical(f, r) == walk(f, r, n),
        is_root(f, canonical(f, r)),
        reaches_root(f, r),
{
    let k = steps_to_root(f, r);
    assert(is_root(f, walk(f, r, k)));
    if k <= n {
        lemma_walk_settles(f, r, k, n);
    } else {
        lemma_walk_settles(f, r, n, k);
    }
}

/// In a forest whose links are closed, a walk never leaves the forest.
pub proof fn lemma_walk_present(f: Seq<Seq<SymbolRefData>>, r: SymbolRef, n: nat)
    requires
        links_closed(f),
        present(f, r),
    ensures
        present(f, walk(f, r, n)),
    decreases n,
{
    if n > 0 {
        match link_at(f, r) {
            Some(parent) => {
                lemma_walk_present(f, parent, (n - 1) as nat);
            },
            None => {},
        }
    }
}

/// The canonical representative of a record is a record, and a root.
pub proof fn lemma_canonical_is_root(f: Seq<Seq<SymbolRefData>>, r: SymbolRef)
    requires
        well_formed(f),
        present(f, r),
    ensures
        present(f, canonical(f, r)),
        is_root(f, canonical(f, r)),
{
    assert(reaches_root(f, r));
    lemma_walk_present(f, r, steps_to_root(f, r));
}

/// A root is its own canonical representative.
pub proof fn lemma_canonical_of_root(f: Seq<Seq<SymbolRefData>>, r: SymbolRef)
    requires
        is_root(f, r),
    ensures
        canonical(f, r) == r,
{
    assert(walk(f, r, 0) == r);
    lemma_canonical_is_walk(f, r, 0);
}

/// A record and its parent have the same canonical representative.
pub proof fn lemma_canonical_of_parent(f: Seq<Seq<SymbolRefData>>, r: SymbolRef)
    requires
        reaches_root(f, r),
        link_at(f, r) is Some,
    ensures
        reaches_root(f, link_at(f, r)->0),
        canonical(f, link_at(f, r)->0) == canonical(f, r),
{
    let parent = link_at(f, r)->0;
    let k = steps_to_root(f, r);
    assert(is_root(f, walk(f, r, k)));
    assert(k > 0);
    assert(walk(f, r, k) == walk(f, parent, (k - 1) as nat));
    lemma_canonical_is_walk(f, parent, (k - 1) as nat);
}

/// Every record on the chain of `r` has the canonical representative of `r`.
pub proof fn lemma_canonical_along_walk(f: Seq<Seq<SymbolRefData>>, r: SymbolRef, n: nat)
    requires
        reaches_root(f, r),
    ensures
        reaches_root(f, walk(f, r, n)),
        canonical(f, walk(f, r, n)) == canonical(f, r),
    decreases n,
{
    if n > 0 {
        match link_at(f, r) {
            Some(parent) => {
                lemma_canonical_of_parent(f, r);
                lemma_canonical_along_walk(f, parent, (n - 1) as nat);
            },
            None => {},
        }
    }
}

/// Replacing a link keeps every record where it is and changes the link of
/// that one record only.
pub proof fn lemma_with_link(
    f: Seq<Seq<SymbolRefData>>,
    r: SymbolRef,
    link: Option<SymbolRef>,
    x: SymbolRef,
)
    requires
        present(f, r),
    ensures
        present(with_link(f, r, link), x) == present(f, x),
        present(f, x) ==> link_at(with_link(f, r, link), x) == (if x == r {
            link
        } else {
            link_at(f, x)
        }),
        present(f, x) ==> same_metadata(f, with_link(f, r, link), x),
{
}

/// Replacing a link keeps the records of the forest, and the name, chunk
/// and namespace alias of each.
pub proof fn lemma_with_link_keeps_metadata(
    f: Seq<Seq<SymbolRefData>>,
    r: SymbolRef,
    link: Option<SymbolRef>,
)
    requires
        present(f, r),
    ensures
        forall|x: SymbolRef| present(with_link(f, r, link), x) == present(f, x),
        metadata_kept(f, with_link(f, r, link)),
{
    assert forall|x: SymbolRef| present(with_link(f, r, link), x) == present(f, x) by {
        lemma_with_link(f, r, link, x);
    }
    assert forall|x: SymbolRef| #[trigger] present(f, x) implies present(with_link(f, r, link), x)
        && same_metadata(f, with_link(f, r, link), x) by {
        lemma_with_link(f, r, link, x);
    }
}

/// After the root `a` is linked to another root `b`, a walk that ended at a
/// root needs at most one step more, and ends at `b` where it ended at `a`.
proof fn lemma_union_walk(
    f: Seq<Seq<SymbolRefData>>,
    a: SymbolRef,
    b: SymbolRef,
    x: SymbolRef,
    n: nat,
)
    requires
        links_closed(f),
        present(f, a),
        present(f, b),
        is_root(f, a),
        is_root(f, b),
        a != b,
        present(f, x),
        is_root(f, walk(f, x, n)),
    ensures
        is_root(with_link(f, a, Some(b)), walk(with_link(f, a, Some(b)), x, n + 1)),
        walk(with_link(f, a, Some(b)), x, n + 1) == (if walk(f, x, n) == a {
            b
        } else {
            walk(f, x, n)
        }),
    decreases n,
{
    let g = with_link(f, a, Some(b));
    lemma_with_link(f, a, Some(b), x);
    lemma_with_link(f, a, Some(b), b);
    match link_at(f, x) {
        Some(parent) => {
            assert(x != a);
            assert(n > 0);
            assert(present(f, parent));
            lemma_union_walk(f, a, b, parent, (n - 1) as nat);
            assert(walk(g, x, n + 1) == walk(g, parent, n));
        },
        None => {
            assert(walk(f, x, n) == x);
            if x == a {
                assert(walk(g, x, n + 1) == walk(g, b, n));
                lemma_walk_from_root(g, b, n);
            } else {
                lemma_walk_from_root(g, x, n + 1);
            }
        },
    }
}

/// Linking a root to another root keeps the forest well formed, and moves
/// the records that the first root stood for, and no others, to the second.
pub proof fn lemma_union(f: Seq<Seq<SymbolRefData>>, a: SymbolRef, b: SymbolRef)
    requires
        well_formed(f),
        present(f, a),
        present(f, b),
        is_root(f, a),
        is_root(f, b),
        a != b,
    ensures
        well_formed(with_link(f, a, Some(b))),
        forall|x: SymbolRef|
            present(f, x) ==> #[trigger] canonical(with_link(f, a, Some(b)), x) == (if canonical(f, x)
                == a {
                b
            } else {
                canonical(f, x)
            }),
{
    let g = with_link(f, a, Some(b));
    assert forall|x: SymbolRef| present(g, x) implies match #[trigger] link_at(g, x) {
        Some(parent) => present(g, parent),
        None => true,
    } by {
        lemma_with_link(f, a, Some(b), x);
        if link_at(g, x) is Some {
            lemma_with_link(f, a, Some(b), link_at(g, x)->0);
            assert(link_at(f, x) is Some ==> present(f, link_at(f, x)->0));
        }
    }
    assert forall|x: SymbolRef| #[trigger] present(g, x) implies reaches_root(g, x) by {
        lemma_with_link(f, a, Some(b), x);
        assert(present(f, x));
        let n = steps_to_root(f, x);
        assert(reaches_root(f, x));
        lemma_union_walk(f, a, b, x, n);
    }
    assert forall|x: SymbolRef| present(f, x) implies #[trigger] canonical(g, x) == (if canonical(f, x)
        == a {
        b
    } else {
        canonical(f, x)
    }) by {
        let n = steps_to_root(f, x);
        assert(reaches_root(f, x));
        lemma_union_walk(f, a, b, x, n);
        lemma_canonical_is_walk(g, x, n + 1);
    }
}

/// After `x` is linked straight to its root, every walk that ended at a root
/// ends at the same root, in no more steps.
proof fn lemma_compress_walk(f: Seq<Seq<SymbolRefData>>, x: SymbolRef, y: SymbolRef, n: nat)
    requires
        well_formed(f),
        present(f, x),
        canonical(f, x) != x,
        present(f, y),
        is_root(f, walk(f, y, n)),
    ensures
        walk(with_link(f, x, Some(canonical(f, x))), y, n) == walk(f, y, n),
        is_root(with_link(f, x, Some(canonical(f, x))), walk(f, y, n)),
    decreases n,
{
    let root = canonical(f, x);
    let g = with_link(f, x, Some(root));
    lemma_canonical_is_root(f, x);
    lemma_with_link(f, x, Some(root), y);
    lemma_walk_present(f, y, n);
    lemma_with_link(f, x, Some(root), walk(f, y, n));
    if is_root(f, x) {
        lemma_canonical_of_root(f, x);
    }
    match link_at(f, y) {
        Some(parent) => {
            assert(n > 0);
            assert(present(f, parent));
            if y == x {
                lemma_canonical_is_walk(f, x, n);
                lemma_with_link(f, x, Some(root), root);
                lemma_walk_from_root(g, root, (n - 1) as nat);
                assert(walk(g, y, n) == walk(g, root, (n - 1) as nat));
            } else {
                lemma_compress_walk(f, x, parent, (n - 1) as nat);
                assert(walk(g, y, n) == walk(g, parent, (n - 1) as nat));
            }
        },
        None => {
            assert(walk(f, y, n) == y);
            lemma_walk_from_root(g, y, n);
        },
    }
}

/// Linking a record straight to its root keeps the forest well formed and
/// the canonical representative of every record.
pub proof fn lemma_compress(f: Seq<Seq<SymbolRefData>>, x: SymbolRef)
    requires
        well_formed(f),
        present(f, x),
        canonical(f, x) != x,
    ensures
        well_formed(with_link(f, x, Some(canonical(f, x)))),
        forall|y: SymbolRef|
            present(f, y) ==> #[trigger] canonical(with_link(f, x, Some(canonical(f, x))), y)
                == canonical(f, y),
{
    let root = canonical(f, x);
    let g = with_link(f, x, Some(root));
    lemma_canonical_is_root(f, x);
    assert forall|y: SymbolRef| present(g, y) implies match #[trigger] link_at(g, y) {
        Some(parent) => present(g, parent),
        None => true,
    } by {
        lemma_with_link(f, x, Some(root), y);
        if link_at(g, y) is Some {
            lemma_with_link(f, x, Some(root), link_at(g, y)->0);
            assert(link_at(f, y) is Some ==> present(f, link_at(f, y)->0));
        }
    }
    assert forall|y: SymbolRef| #[trigger] present(g, y) implies reaches_root(g, y) by {
        lemma_with_link(f, x, Some(root), y);
        assert(present(f, y));
        assert(reaches_root(f, y));
        let n = steps_to_root(f, y);
        lemma_compress_walk(f, x, y, n);
        assert(is_root(g, walk(g, y, n)));
    }
    assert forall|y: SymbolRef| present(f, y) implies #[trigger] canonical(g, y) == canonical(
        f,
        y,
    ) by {
        assert(reaches_root(f, y));
        let n = steps_to_root(f, y);
        lemma_compress_walk(f, x, y, n);
        lemma_canonical_is_walk(g, y, n);
    }
}

/// The record of `x` has in `g` the name, chunk and namespace alias that it
/// has in `f`.
pub open spec fn same_metadata(
    f: Seq<Seq<SymbolRefData>>,
    g: Seq<Seq<SymbolRefData>>,
    x: SymbolRef,
) -> bool {
    &&& record_at(g, x).name == record_at(f, x).name
    &&& record_at(g, x).chunk_id == record_at(f, x).chunk_id
    &&& record_at(g, x).namespace_alias == record_at(f, x).namespace_alias
}

/// Every record of `f` is a record of `g` with the same name, chunk and
/// namespace alias.
pub open spec fn metadata_kept(f: Seq<Seq<SymbolRefData>>, g: Seq<Seq<SymbolRefData>>) -> bool {
    forall|x: SymbolRef| #[trigger] present(f, x) ==> present(g, x) && same_metadata(f, g, x)
}

/// Every record of `f` is a record of `g` with the same link.
pub open spec fn links_kept(f: Seq<Seq<SymbolRefData>>, g: Seq<Seq<SymbolRefData>>) -> bool {
    forall|x: SymbolRef| #[trigger] present(f, x) ==> present(g, x) && link_at(g, x) == link_at(f, x)
}

/// Every record of `f` is a record of `g`, with the link it had or with none.
pub open spec fn links_kept_or_cut(
    f: Seq<Seq<SymbolRefData>>,
    g: Seq<Seq<SymbolRefData>>,
) -> bool {
    forall|x: SymbolRef| #[trigger]
        present(f, x) ==> present(g, x) && (link_at(g, x) == link_at(f, x) || link_at(g, x) is None)
}

/// The records of `g` that `f` does not have are roots.
pub open spec fn added_are_roots(f: Seq<Seq<SymbolRefData>>, g: Seq<Seq<SymbolRefData>>) -> bool {
    forall|x: SymbolRef| #[trigger] present(g, x) && !present(f, x) ==> is_root(g, x)
}

/// The number of records of module `m`; 0 where the forest has no such
/// module.
pub open spec fn table_size(f: Seq<Seq<SymbolRefData>>, m: int) -> nat {
    if 0 <= m < f.len() {
        f[m].len()
    } else {
        0
    }
}

/// `f`, with empty tables added behind it until it has `n` tables. A forest
/// that has `n` tables or more is left as it is.
pub open spec fn grown(f: Seq<Seq<SymbolRefData>>, n: nat) -> Seq<Seq<SymbolRefData>> {
    if f.len() >= n {
        f
    } else {
        f + Seq::new((n - f.len()) as nat, |i: int| Seq::<SymbolRefData>::empty())
    }
}

/// The table that a module's names make: one fresh record for each, in
/// their order.
pub open spec fn fresh_records(names: Seq<CompactStr>) -> Seq<SymbolRefData> {
    Seq::new(names.len(), |i: int| SymbolRefData::fresh(names[i]))
}

/// `f` after the names of module `m` are registered: grown to hold `m`,
/// and the table of `m` replaced by the fresh records of `names`.
pub open spec fn registered(
    f: Seq<Seq<SymbolRefData>>,
    m: int,
    names: Seq<CompactStr>,
) -> Seq<Seq<SymbolRefData>> {
    grown(f, (m + 1) as nat).update(m, fresh_records(names))
}

/// `f` after a symbol called `name` is created in module `m`: grown to hold
/// `m`, and a fresh record put behind the table of `m`.
pub open spec fn created(
    f: Seq<Seq<SymbolRefData>>,
    m: int,
    name: CompactStr,
) -> Seq<Seq<SymbolRefData>> {
    grown(f, (m + 1) as nat).update(
        m,
        grown(f, (m + 1) as nat)[m].push(SymbolRefData::fresh(name)),
    )
}

/// `f` after `base` is linked to `target`: the root of `base` gets the root
/// of `target` as its parent, unless the two are one already.
pub open spec fn linked(
    f: Seq<Seq<SymbolRefData>>,
    base: SymbolRef,
    target: SymbolRef,
) -> Seq<Seq<SymbolRefData>> {
    if canonical(f, base) == canonical(f, target) {
        f
    } else {
        with_link(f, canonical(f, base), Some(canonical(f, target)))
    }
}

/// `f` after a search from `r` that shortens the chain: `r` gets its root as
/// its parent, unless `r` is that root.
pub open spec fn compressed(f: Seq<Seq<SymbolRefData>>, r: SymbolRef) -> Seq<Seq<SymbolRefData>> {
    if canonical(f, r) == r {
        f
    } else {
        with_link(f, r, Some(canonical(f, r)))
    }
}

/// Where `g` keeps the records and links of `f`, a walk in `g` from a record
/// of `f` is the walk in `f`.
pub proof fn lemma_walk_kept(
    f: Seq<Seq<SymbolRefData>>,
    g: Seq<Seq<SymbolRefData>>,
    x: SymbolRef,
    n: nat,
)
    requires
        links_closed(f),
        links_kept(f, g),
        present(f, x),
    ensures
        walk(g, x, n) == walk(f, x, n),
    decreases n,
{
    if n > 0 {
        match link_at(f, x) {
            Some(parent) => {
                lemma_walk_kept(f, g, parent, (n - 1) as nat);
            },
            None => {},
        }
    }
}

/// Adding roots to a well-formed forest leaves it well formed, and leaves
/// the canonical representative of every record it had.
pub proof fn lemma_extension(f: Seq<Seq<SymbolRefData>>, g: Seq<Seq<SymbolRefData>>)
    requires
        well_formed(f),
        links_kept(f, g),
        added_are_roots(f, g),
    ensures
        well_formed(g),
        forall|x: SymbolRef| present(f, x) ==> #[trigger] canonical(g, x) == canonical(f, x),
{
    assert forall|x: SymbolRef| present(f, x) implies #[trigger] canonical(g, x) == canonical(f, x)
        && reaches_root(g, x) by {
        assert(reaches_root(f, x));
        let n = steps_to_root(f, x);
        lemma_walk_kept(f, g, x, n);
        lemma_walk_present(f, x, n);
        assert(present(f, walk(f, x, n)));
        lemma_canonical_is_walk(g, x, n);
    }
    assert forall|x: SymbolRef| #[trigger] present(g, x) implies reaches_root(g, x) by {
        if present(f, x) {
            assert(canonical(g, x) == canonical(f, x) && reaches_root(g, x));
        } else {
            assert(is_root(g, walk(g, x, 0)));
        }
    }
    assert forall|x: SymbolRef| present(g, x) implies match #[trigger] link_at(g, x) {
        Some(parent) => present(g, parent),
        None => true,
    } by {
        if present(f, x) {
            assert(link_at(f, x) is Some ==> present(f, link_at(f, x)->0));
        }
    }
}

/// Where `g` keeps or cuts the links of `f`, a record that reached a root in
/// `f` reaches one in `g`.
proof fn lemma_cut_walk(
    f: Seq<Seq<SymbolRefData>>,
    g: Seq<Seq<SymbolRefData>>,
    x: SymbolRef,
    n: nat,
)
    requires
        links_closed(f),
        links_kept_or_cut(f, g),
        present(f, x),
        is_root(f, walk(f, x, n)),
    ensures
        reaches_root(g, x),
    decreases n,
{
    match link_at(g, x) {
        Some(parent) => {
            assert(link_at(f, x) == Some(parent));
            assert(n > 0);
            lemma_cut_walk(f, g, parent, (n - 1) as nat);
            let m = steps_to_root(g, parent);
            assert(walk(g, x, m + 1) == walk(g, parent, m));
            assert(is_root(g, walk(g, x, m + 1)));
        },
        None => {
            assert(is_root(g, walk(g, x, 0)));
        },
    }
}

/// Cutting links of a well-formed forest and adding roots to it leaves it
/// well formed.
pub proof fn lemma_cut(f: Seq<Seq<SymbolRefData>>, g: Seq<Seq<SymbolRefData>>)
    requires
        well_formed(f),
        links_kept_or_cut(f, g),
        added_are_roots(f, g),
    ensures
        well_formed(g),
{
    assert forall|x: SymbolRef| #[trigger] present(g, x) implies reaches_root(g, x) by {
        if present(f, x) {
            assert(reaches_root(f, x));
            lemma_cut_walk(f, g, x, steps_to_root(f, x));
        } else {
            assert(is_root(g, walk(g, x, 0)));
        }
    }
    assert forall|x: SymbolRef| present(g, x) implies match #[trigger] link_at(g, x) {
        Some(parent) => present(g, parent),
        None => true,
    } by {
        if present(f, x) {
            assert(link_at(f, x) is Some ==> present(f, link_at(f, x)->0));
        }
    }
}

} // verus!
