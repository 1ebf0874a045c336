//! What holds of the operations taken together, stated over the forest that
//! a database is.

use crate::forest::{
    canonical, compressed, fresh_records, is_root, lemma_canonical_along_walk,
    lemma_canonical_is_root, lemma_canonical_is_walk, lemma_canonical_of_root, lemma_compress,
    lemma_extension, lemma_union, lemma_walk_settles, lemma_walk_split, lemma_with_link,
    lemma_with_link_keeps_metadata, link_at, linked, links_kept, metadata_kept, present,
    reaches_root, registered, steps_to_root, walk, well_formed, with_record,
};
use crate::ids::SymbolRef;
use crate::record::SymbolRefData;
use oxc::span::CompactStr;
use vstd::prelude::*;

verus! {

/// Searching twice is searching once: the canonical representative of a
/// record is its own canonical representative.
pub proof fn lemma_find_is_idempotent(f: Seq<Seq<SymbolRefData>>, r: SymbolRef)
    requires
        well_formed(f),
        present(f, r),
    ensures
        canonical(f, canonical(f, r)) == canonical(f, r),
{
    lemma_canonical_is_root(f, r);
    lemma_canonical_of_root(f, canonical(f, r));
}

/// A search that shortens the chain of `r` leaves a well-formed forest with
/// the same records, in which every record has the canonical representative
/// it had. A search that only reads, made after it, finds what it found.
pub proof fn lemma_compression_keeps_roots(f: Seq<Seq<SymbolRefData>>, r: SymbolRef)
    requires
        well_formed(f),
        present(f, r),
    ensures
        well_formed(compressed(f, r)),
        forall|x: SymbolRef| present(compressed(f, r), x) == present(f, x),
        forall|x: SymbolRef|
            present(f, x) ==> #[trigger] canonical(compressed(f, r), x) == canonical(f, x),
        canonical(compressed(f, r), r) == canonical(f, r),
        metadata_kept(f, compressed(f, r)),
{
    if canonical(f, r) != r {
        lemma_compress(f, r);
        lemma_with_link_keeps_metadata(f, r, Some(canonical(f, r)));
    }
}

/// Linking `base` to `target` leaves a well-formed forest with the same
/// records. The records that had the root of `base` now have the root that
/// `target` had; every other record keeps its root.
pub proof fn lemma_link_moves_one_class(
    f: Seq<Seq<SymbolRefData>>,
    base: SymbolRef,
    target: SymbolRef,
)
    requires
        well_formed(f),
        present(f, base),
        present(f, target),
    ensures
        well_formed(linked(f, base, target)),
        forall|x: SymbolRef| present(linked(f, base, target), x) == present(f, x),
        forall|x: SymbolRef|
            present(f, x) ==> #[trigger] canonical(linked(f, base, target), x) == (if canonical(
                f,
                x,
            ) == canonical(f, base) {
                canonical(f, target)
            } else {
                canonical(f, x)
            }),
{
    let a = canonical(f, base);
    let b = canonical(f, target);
    if a != b {
        lemma_canonical_is_root(f, base);
        lemma_canonical_is_root(f, target);
        lemma_union(f, a, b);
        lemma_with_link_keeps_metadata(f, a, Some(b));
    }
}

/// After `base` is linked to `target` the two have one canonical
/// representative: the one that `target` had before, not the one of `base`.
pub proof fn lemma_link_unites(f: Seq<Seq<SymbolRefData>>, base: SymbolRef, target: SymbolRef)
    requires
        well_formed(f),
        present(f, base),
        present(f, target),
    ensures
        canonical(linked(f, base, target), base) == canonical(f, target),
        canonical(linked(f, base, target), target) == canonical(f, target),
{
    lemma_link_moves_one_class(f, base, target);
}

/// Linking two records that have one canonical representative already, a
/// record to itself among them, changes nothing; so linking a second time
/// changes nothing.
pub proof fn lemma_link_again_changes_nothing(
    f: Seq<Seq<SymbolRefData>>,
    base: SymbolRef,
    target: SymbolRef,
)
    requires
        well_formed(f),
        present(f, base),
        present(f, target),
    ensures
        canonical(f, base) == canonical(f, target) ==> linked(f, base, target) == f,
        linked(f, base, base) == f,
        linked(linked(f, base, target), base, target) == linked(f, base, target),
{
    lemma_link_unites(f, base, target);
}

/// Linking gives no record another name, chunk or namespace alias.
pub proof fn lemma_link_keeps_metadata(
    f: Seq<Seq<SymbolRefData>>,
    base: SymbolRef,
    target: SymbolRef,
)
    requires
        well_formed(f),
        present(f, base),
        present(f, target),
    ensures
        metadata_kept(f, linked(f, base, target)),
{
    let a = canonical(f, base);
    let b = canonical(f, target);
    if a != b {
        lemma_canonical_is_root(f, base);
        lemma_with_link_keeps_metadata(f, a, Some(b));
    }
}

/// Writing a record without touching its link, as the assignment of a
/// chunk or of a namespace alias does, leaves a well-formed forest with the
/// same records, links and canonical representatives.
pub proof fn lemma_metadata_write_keeps_forest(
    f: Seq<Seq<SymbolRefData>>,
    r: SymbolRef,
    data: SymbolRefData,
)
    requires
        well_formed(f),
        present(f, r),
        data.link == link_at(f, r),
    ensures
        well_formed(with_record(f, r, data)),
        links_kept(f, with_record(f, r, data)),
        forall|x: SymbolRef| present(with_record(f, r, data), x) == present(f, x),
        forall|x: SymbolRef|
            present(f, x) ==> #[trigger] canonical(with_record(f, r, data), x) == canonical(f, x),
{
    let g = with_record(f, r, data);
    assert forall|x: SymbolRef| present(g, x) == present(f, x) by {}
    assert forall|x: SymbolRef| #[trigger] present(f, x) implies present(g, x) && link_at(g, x)
        == link_at(f, x) by {}
    lemma_extension(f, g);
}

/// One change to the links: a link of two records, or a search that
/// shortens a chain.
pub enum LinkStep {
    Link { base: SymbolRef, target: SymbolRef },
    Find { target: SymbolRef },
}

/// Does `step` speak of records of `f` only?
pub open spec fn step_fits(f: Seq<Seq<SymbolRefData>>, step: LinkStep) -> bool {
    match step {
        LinkStep::Link { base, target } => present(f, base) && present(f, target),
        LinkStep::Find { target } => present(f, target),
    }
}

/// `f` after `step`.
pub open spec fn after_step(f: Seq<Seq<SymbolRefData>>, step: LinkStep) -> Seq<
    Seq<SymbolRefData>,
> {
    match step {
        LinkStep::Link { base, target } => linked(f, base, target),
        LinkStep::Find { target } => compressed(f, target),
    }
}

/// `f` after `steps`, one after the other.
pub open spec fn after_steps(f: Seq<Seq<SymbolRefData>>, steps: Seq<LinkStep>) -> Seq<
    Seq<SymbolRefData>,
>
    decreases steps.len(),
{
    if steps.len() == 0 {
        f
    } else {
        after_step(after_steps(f, steps.drop_last()), steps.last())
    }
}

/// A link or a shortening search leaves a well-formed forest with the same
/// records. A record that had a parent has one still, and two records that
/// had one canonical representative have one still.
pub proof fn lemma_step_keeps_forest(f: Seq<Seq<SymbolRefData>>, step: LinkStep)
    requires
        well_formed(f),
        step_fits(f, step),
    ensures
        well_formed(after_step(f, step)),
        forall|x: SymbolRef| present(after_step(f, step), x) == present(f, x),
        forall|x: SymbolRef|
            present(f, x) && !is_root(f, x) ==> !#[trigger] is_root(after_step(f, step), x),
        forall|x: SymbolRef, y: SymbolRef|
            present(f, x) && present(f, y) && canonical(f, x) == canonical(f, y)
                ==> #[trigger] canonical(after_step(f, step), x) == #[trigger] canonical(
                after_step(f, step),
                y,
            ),
{
    match step {
        LinkStep::Link { base, target } => {
            lemma_link_moves_one_class(f, base, target);
            if canonical(f, base) != canonical(f, target) {
                lemma_canonical_is_root(f, base);
                assert forall|x: SymbolRef| present(f, x) && !is_root(f, x) implies !is_root(
                    after_step(f, step),
                    x,
                ) by {
                    lemma_with_link(f, canonical(f, base), Some(canonical(f, target)), x);
                }
            }
        },
        LinkStep::Find { target } => {
            lemma_compression_keeps_roots(f, target);
            if canonical(f, target) != target {
                assert forall|x: SymbolRef| present(f, x) && !is_root(f, x) implies !is_root(
                    after_step(f, step),
                    x,
                ) by {
                    lemma_with_link(f, target, Some(canonical(f, target)), x);
                }
            }
        },
    }
}

/// Links and shortening searches, as many as there are and in whatever
/// order, leave a well-formed forest with the same records. A record that
/// had a parent has one still, and two records that had one canonical
/// representative have one still.
pub proof fn lemma_steps_keep_forest(f: Seq<Seq<SymbolRefData>>, steps: Seq<LinkStep>)
    requires
        well_formed(f),
        forall|i: int| 0 <= i < steps.len() ==> step_fits(f, #[trigger] steps[i]),
    ensures
        well_formed(after_steps(f, steps)),
        forall|x: SymbolRef| present(after_steps(f, steps), x) == present(f, x),
        forall|x: SymbolRef|
            present(f, x) && !is_root(f, x) ==> !#[trigger] is_root(after_steps(f, steps), x),
        forall|x: SymbolRef, y: SymbolRef|
            present(f, x) && present(f, y) && canonical(f, x) == canonical(f, y)
                ==> #[trigger] canonical(after_steps(f, steps), x) == #[trigger] canonical(
                after_steps(f, steps),
                y,
            ),
    decreases steps.len(),
{
    if steps.len() > 0 {
        let before = after_steps(f, steps.drop_last());
        assert forall|i: int| 0 <= i < steps.drop_last().len() implies step_fits(
            f,
            #[trigger] steps.drop_last()[i],
        ) by {
            assert(steps.drop_last()[i] == steps[i]);
        }
        lemma_steps_keep_forest(f, steps.drop_last());
        assert(step_fits(f, steps[steps.len() - 1]));
        match steps.last() {
            LinkStep::Link { base, target } => {
                assert(present(before, base) == present(f, base));
                assert(present(before, target) == present(f, target));
            },
            LinkStep::Find { target } => {
                assert(present(before, target) == present(f, target));
            },
        }
        lemma_step_keeps_forest(before, steps.last());
        assert forall|x: SymbolRef, y: SymbolRef|
            present(f, x) && present(f, y) && canonical(f, x) == canonical(f, y) implies canonical(
            after_steps(f, steps),
            x,
        ) == canonical(after_steps(f, steps), y) by {
            assert(present(before, x) && present(before, y));
            assert(canonical(before, x) == canonical(before, y));
        }
    }
}

/// In a well-formed forest every chain ends at one root, the same from
/// whichever record of the chain the walk sets out: the walk from `r` stays
/// among records with the canonical representative of `r`, and a root that
/// it reaches is that representative.
pub proof fn lemma_one_root_per_chain(f: Seq<Seq<SymbolRefData>>, r: SymbolRef, n: nat)
    requires
        well_formed(f),
        present(f, r),
    ensures
        present(f, canonical(f, r)),
        is_root(f, canonical(f, r)),
        canonical(f, walk(f, r, n)) == canonical(f, r),
        is_root(f, walk(f, r, n)) ==> walk(f, r, n) == canonical(f, r),
{
    lemma_canonical_is_root(f, r);
    lemma_canonical_along_walk(f, r, n);
    if is_root(f, walk(f, r, n)) {
        lemma_canonical_is_walk(f, r, n);
    }
}

/// A walk that comes back to where it set out comes back there after any
/// number of steps, however large: `back` is some number of steps, `least`
/// or more, that leads from `r` to `r`.
proof fn lemma_circle_repeats(f: Seq<Seq<SymbolRefData>>, r: SymbolRef, n: nat, least: nat) -> (back:
    nat)
    requires
        n > 0,
        walk(f, r, n) == r,
    ensures
        back >= least,
        walk(f, r, back) == r,
    decreases least,
{
    if least == 0 {
        0
    } else {
        let shorter = lemma_circle_repeats(f, r, n, (least - 1) as nat);
        lemma_walk_split(f, r, shorter, n);
        shorter + n
    }
}

/// The links of a well-formed forest run in no circle: from a record that
/// has a parent, no number of steps leads back to the record.
pub proof fn lemma_no_way_back(f: Seq<Seq<SymbolRefData>>, r: SymbolRef, n: nat)
    requires
        well_formed(f),
        present(f, r),
        !is_root(f, r),
        n > 0,
    ensures
        walk(f, r, n) != r,
{
    if walk(f, r, n) == r {
        assert(reaches_root(f, r));
        let to_root = steps_to_root(f, r);
        let back = lemma_circle_repeats(f, r, n, to_root);
        lemma_walk_settles(f, r, to_root, back);
    }
}

/// Registering module `first` and then another module `second` leaves each
/// of the two with the fresh records of its own names, whichever index is
/// the higher.
pub proof fn lemma_registrations_keep_apart(
    f: Seq<Seq<SymbolRefData>>,
    first: nat,
    first_names: Seq<CompactStr>,
    second: nat,
    second_names: Seq<CompactStr>,
)
    requires
        first != second,
    ensures
        ({
            let g = registered(
                registered(f, first as int, first_names),
                second as int,
                second_names,
            );
            &&& g[first as int] == fresh_records(first_names)
            &&& g[second as int] == fresh_records(second_names)
            &&& first < g.len()
            &&& second < g.len()
        }),
{
}

} // verus!
