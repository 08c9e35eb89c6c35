//! When the objects that are found make a log again, and what it resumes with.
use vstd::prelude::*;

use crate::catalog::{
    by_region, entry_of, has_region, lemma_entry_of, raised_ids, CatalogModel,
};
use crate::format::FooterEntry;
use crate::id::EntryId;
use crate::index_laws::{
    can_be_indexed, is_in_order, is_unused, lemma_accepted_iff, lemma_next_seq_is_the_least_unused,
    lemma_same_segments, lists_regions_once,
};
use crate::ordmap::{lemma_lists_keys, ordered_keys};
use crate::recovery::{
    by_seq, durable_ids, durable_ids_upto, indexed, insert_by_seq, lemma_indexed_is_valid,
    resumes_at,
};

verus! {

/// A footer can be that of an object: it has segments, one per region at most, each with entries
/// and a range that does not run backwards.
pub open spec fn is_sound(footer: Seq<FooterEntry>) -> bool {
    &&& footer.len() > 0
    &&& lists_regions_once(footer)
    &&& forall|i: int|
        0 <= i < footer.len() ==> (#[trigger] footer[i]).entry_count > 0 && footer[i].min_entry_id
            <= footer[i].max_entry_id
}

/// The ids of every region in the lower footer are below those in the upper one.
pub open spec fn is_below(lower: Seq<FooterEntry>, upper: Seq<FooterEntry>) -> bool {
    forall|i: int, j: int|
        0 <= i < lower.len() && 0 <= j < upper.len() && (#[trigger] lower[i]).region_id == (
        #[trigger] upper[j]).region_id ==> lower[i].max_entry_id < upper[j].min_entry_id
}

/// Two objects can be of one log: their sequences differ, and the ids of a region increase with
/// the sequences.
pub open spec fn are_compatible(
    a: (u64, Seq<FooterEntry>),
    b: (u64, Seq<FooterEntry>),
) -> bool {
    &&& a.0 != b.0
    &&& a.0 < b.0 ==> is_below(a.1, b.1)
    &&& b.0 < a.0 ==> is_below(b.1, a.1)
}

/// The objects can be of one log.
pub open spec fn is_consistent(items: Seq<(u64, Seq<FooterEntry>)>) -> bool {
    &&& forall|i: int| 0 <= i < items.len() ==> is_sound((#[trigger] items[i]).1)
    &&& forall|i: int, j: int|
        0 <= i < items.len() && 0 <= j < items.len() && i != j ==> are_compatible(
            #[trigger] items[i],
            #[trigger] items[j],
        )
}

/// The catalog holds the first `n` of the objects and no other.
pub open spec fn holds(
    catalog: CatalogModel,
    items: Seq<(u64, Seq<FooterEntry>)>,
    n: int,
) -> bool {
    &&& forall|i: int|
        0 <= i < n ==> catalog.objects.contains_key((#[trigger] items[i]).0)
            && catalog.objects[items[i].0].to_multiset() == items[i].1.to_multiset()
    &&& forall|seq: u64| #[trigger]
        catalog.objects.contains_key(seq) ==> exists|i: int|
            0 <= i < n && (#[trigger] items[i]).0 == seq
}

/// The catalog holds the first `n` of the objects, with their segments ordered by region.
spec fn holds_ordered(
    catalog: CatalogModel,
    items: Seq<(u64, Seq<FooterEntry>)>,
    n: int,
) -> bool {
    &&& forall|i: int|
        0 <= i < n ==> catalog.objects.contains_key((#[trigger] items[i]).0)
            && catalog.objects[items[i].0] == by_region(items[i].1)
    &&& forall|seq: u64| #[trigger]
        catalog.objects.contains_key(seq) ==> exists|i: int|
            0 <= i < n && (#[trigger] items[i]).0 == seq
}

proof fn lemma_fits_iff_compatible(
    catalog: CatalogModel,
    items: Seq<(u64, Seq<FooterEntry>)>,
    n: int,
)
    requires
        0 <= n < items.len(),
        holds_ordered(catalog, items, n),
    ensures
        can_be_indexed(catalog, items[n].0, items[n].1) <==> is_sound(items[n].1) && forall|i: int|
            0 <= i < n ==> are_compatible(#[trigger] items[i], items[n]),
{
    let (seq, footer) = items[n];
    if can_be_indexed(catalog, seq, footer) {
        assert forall|i: int| 0 <= i < n implies are_compatible(#[trigger] items[i], items[n]) by {
            let other = items[i];
            let sorted = by_region(other.1);
            lemma_same_segments(other.1);
            assert(catalog.objects.contains_key(other.0));
            assert(catalog.objects[other.0] == sorted);
            assert forall|a: int, b: int|
                0 <= a < other.1.len() && 0 <= b < footer.len() && (
                #[trigger] other.1[a]).region_id == (#[trigger] footer[b]).region_id implies (
            other.0 < seq ==> other.1[a].max_entry_id < footer[b].min_entry_id) && (seq < other.0
                ==> footer[b].max_entry_id < other.1[a].min_entry_id) by {
                assert(is_in_order(catalog.objects, seq, footer[b]));
                assert(other.1.contains(other.1[a]));
                assert(by_region(other.1).contains(other.1[a]));
                let k = sorted.index_of(other.1[a]);
                assert(catalog.objects[other.0][k] == other.1[a]);
            }
        }
    }
    if is_sound(footer) && forall|i: int|
        0 <= i < n ==> are_compatible(#[trigger] items[i], items[n]) {
        assert(!catalog.objects.contains_key(seq)) by {
            if catalog.objects.contains_key(seq) {
                let i = choose|i: int| 0 <= i < n && (#[trigger] items[i]).0 == seq;
                assert(are_compatible(items[i], items[n]));
            }
        }
        assert forall|b: int| 0 <= b < footer.len() implies is_in_order(
            catalog.objects,
            seq,
            #[trigger] footer[b],
        ) by {
            assert forall|other: u64, k: int|
                catalog.objects.contains_key(other) && 0 <= k < catalog.objects[other].len() && (
                #[trigger] catalog.objects[other][k]).region_id == footer[b].region_id implies {
                &&& other < seq ==> catalog.objects[other][k].max_entry_id
                    < footer[b].min_entry_id
                &&& other > seq ==> footer[b].max_entry_id
                    < catalog.objects[other][k].min_entry_id
            } by {
                let i = choose|i: int| 0 <= i < n && (#[trigger] items[i]).0 == other;
                assert(are_compatible(items[i], items[n]));
                let sorted = catalog.objects[other];
                assert(sorted == by_region(items[i].1));
                lemma_same_segments(items[i].1);
                assert(by_region(items[i].1).contains(sorted[k]));
                let a = items[i].1.index_of(sorted[k]);
                assert(items[i].1[a] == sorted[k]);
            }
        }
    }
}

proof fn lemma_indexed_iff(items: Seq<(u64, Seq<FooterEntry>)>, n: int)
    requires
        0 <= n <= items.len(),
    ensures
        indexed(items, n) is Ok <==> is_consistent(items.take(n)),
        indexed(items, n) matches Ok(catalog) ==> holds_ordered(catalog, items, n),
    decreases n,
{
    let taken = items.take(n);
    if n > 0 {
        let rest = items.take(n - 1);
        lemma_indexed_iff(items, n - 1);
        lemma_indexed_is_valid(items, n - 1);
        assert(taken.drop_last() =~= rest);
        assert forall|i: int| 0 <= i < n - 1 implies #[trigger] taken[i] == rest[i] by {}
        assert(taken[n - 1] == items[n - 1]);
        if is_consistent(taken) {
            assert(is_consistent(rest)) by {
                assert forall|i: int| 0 <= i < rest.len() implies is_sound(
                    (#[trigger] rest[i]).1,
                ) by {
                    assert(is_sound(taken[i].1));
                }
                assert forall|i: int, j: int|
                    0 <= i < rest.len() && 0 <= j < rest.len() && i != j implies are_compatible(
                    #[trigger] rest[i],
                    #[trigger] rest[j],
                ) by {
                    assert(are_compatible(taken[i], taken[j]));
                }
            }
        }
        if let Ok(catalog) = indexed(items, n - 1) {
            let (seq, footer) = items[n - 1];
            lemma_fits_iff_compatible(catalog, items, n - 1);
            lemma_accepted_iff(catalog, seq, footer);
            if is_consistent(taken) {
                assert(is_sound(taken[n - 1].1));
                assert forall|i: int| 0 <= i < n - 1 implies are_compatible(
                    #[trigger] items[i],
                    items[n - 1],
                ) by {
                    assert(are_compatible(taken[i], taken[n - 1]));
                }
            }
            if can_be_indexed(catalog, seq, footer) {
                assert(is_consistent(rest));
                assert(is_consistent(taken)) by {
                    assert forall|i: int| 0 <= i < taken.len() implies is_sound(
                        (#[trigger] taken[i]).1,
                    ) by {
                        if i < n - 1 {
                            assert(is_sound(rest[i].1));
                        }
                    }
                    assert forall|i: int, j: int|
                        0 <= i < taken.len() && 0 <= j < taken.len() && i
                            != j implies are_compatible(
                        #[trigger] taken[i],
                        #[trigger] taken[j],
                    ) by {
                        if i < n - 1 && j < n - 1 {
                            assert(are_compatible(rest[i], rest[j]));
                        } else if i < n - 1 {
                            assert(are_compatible(items[i], items[n - 1]));
                        } else {
                            assert(are_compatible(items[j], items[n - 1]));
                        }
                    }
                }
                let after = catalog.inserted(seq, footer);
                assert(holds_ordered(after, items, n)) by {
                    assert forall|i: int| 0 <= i < n implies after.objects.contains_key(
                        (#[trigger] items[i]).0,
                    ) && after.objects[items[i].0] == by_region(items[i].1) by {
                        if i < n - 1 {
                            assert(catalog.objects.contains_key(items[i].0));
                        }
                    }
                    assert forall|s: u64| #[trigger]
                        after.objects.contains_key(s) implies exists|i: int|
                        0 <= i < n && (#[trigger] items[i]).0 == s by {
                        if s == seq {
                            assert(items[n - 1].0 == s);
                        } else {
                            assert(catalog.objects.contains_key(s));
                            let i = choose|i: int| 0 <= i < n - 1 && (#[trigger] items[i]).0 == s;
                            assert(items[i].0 == s);
                        }
                    }
                }
            }
        }
    }
}

proof fn lemma_insert_seq_place(
    sorted: Seq<(u64, Seq<FooterEntry>)>,
    item: (u64, Seq<FooterEntry>),
) -> (p: int)
    ensures
        0 <= p <= sorted.len(),
        insert_by_seq(sorted, item) == sorted.insert(p, item),
    decreases sorted.len(),
{
    if sorted.len() == 0 || sorted.last().0 <= item.0 {
        assert(sorted.push(item) =~= sorted.insert(sorted.len() as int, item));
        sorted.len() as int
    } else {
        let rest = sorted.drop_last();
        let p = lemma_insert_seq_place(rest, item);
        assert(rest.insert(p, item).push(sorted.last()) =~= sorted.insert(p, item));
        p
    }
}

/// The same objects are there in the order of their sequences.
proof fn lemma_same_items(found: Seq<(u64, Seq<FooterEntry>)>)
    ensures
        by_seq(found).len() == found.len(),
        forall|x: (u64, Seq<FooterEntry>)| #[trigger]
            by_seq(found).contains(x) <==> found.contains(x),
    decreases found.len(),
{
    if found.len() > 0 {
        let rest = found.drop_last();
        let last = found.last();
        let sorted = by_seq(rest);
        let all = by_seq(found);
        lemma_same_items(rest);
        let p = lemma_insert_seq_place(sorted, last);
        assert(all == sorted.insert(p, last));
        assert(all[p] == last);
        assert(found[found.len() - 1] == last);
        assert forall|x: (u64, Seq<FooterEntry>)| #[trigger] all.contains(x) <==> found.contains(
            x,
        ) by {
            if all.contains(x) && x != last {
                let i = all.index_of(x);
                let k = if i < p {
                    i
                } else {
                    i - 1
                };
                assert(sorted[k] == x);
                assert(by_seq(rest).contains(x));
                assert(found[rest.index_of(x)] == x);
            }
            if found.contains(x) && x != last {
                let i = found.index_of(x);
                assert(rest[i] == x);
                assert(by_seq(rest).contains(x));
                let k = sorted.index_of(x);
                assert(all[if k < p {
                    k
                } else {
                    k + 1
                }] == x);
            }
        }
    }
}

/// The object is sound and compatible with all of the others.
spec fn joins(items: Seq<(u64, Seq<FooterEntry>)>, item: (u64, Seq<FooterEntry>)) -> bool {
    &&& is_sound(item.1)
    &&& forall|k: int| 0 <= k < items.len() ==> are_compatible(#[trigger] items[k], item)
}

proof fn lemma_parts_are_consistent(
    items: Seq<(u64, Seq<FooterEntry>)>,
    p: int,
    item: (u64, Seq<FooterEntry>),
)
    requires
        0 <= p <= items.len(),
        is_consistent(items.insert(p, item)),
    ensures
        is_consistent(items),
        joins(items, item),
{
    let all = items.insert(p, item);
    assert(all[p] == item);
    assert forall|i: int| 0 <= i < items.len() implies is_sound((#[trigger] items[i]).1)
        && are_compatible(items[i], item) by {
        let a = if i < p {
            i
        } else {
            i + 1
        };
        assert(all[a] == items[i]);
        assert(are_compatible(all[a], all[p]));
    }
    assert forall|i: int, j: int|
        0 <= i < items.len() && 0 <= j < items.len() && i != j implies are_compatible(
        #[trigger] items[i],
        #[trigger] items[j],
    ) by {
        let a = if i < p {
            i
        } else {
            i + 1
        };
        let b = if j < p {
            j
        } else {
            j + 1
        };
        assert(all[a] == items[i] && all[b] == items[j]);
        assert(are_compatible(all[a], all[b]));
    }
}

proof fn lemma_whole_is_consistent(
    items: Seq<(u64, Seq<FooterEntry>)>,
    p: int,
    item: (u64, Seq<FooterEntry>),
)
    requires
        0 <= p <= items.len(),
        is_consistent(items),
        joins(items, item),
    ensures
        is_consistent(items.insert(p, item)),
{
    let all = items.insert(p, item);
    assert(all[p] == item);
    assert forall|i: int| 0 <= i < all.len() implies is_sound((#[trigger] all[i]).1) by {
        if i != p {
            let a = if i < p {
                i
            } else {
                i - 1
            };
            assert(all[i] == items[a]);
        }
    }
    assert forall|i: int, j: int|
        0 <= i < all.len() && 0 <= j < all.len() && i != j implies are_compatible(
        #[trigger] all[i],
        #[trigger] all[j],
    ) by {
        let a = if i < p {
            i
        } else {
            i - 1
        };
        let b = if j < p {
            j
        } else {
            j - 1
        };
        if i == p {
            assert(all[j] == items[b]);
            assert(are_compatible(items[b], item));
        } else if j == p {
            assert(all[i] == items[a]);
            assert(are_compatible(items[a], item));
        } else {
            assert(all[i] == items[a] && all[j] == items[b]);
            assert(are_compatible(items[a], items[b]));
        }
    }
}

/// An object joins the same objects in whatever order they are.
proof fn lemma_joins_any_order(
    a: Seq<(u64, Seq<FooterEntry>)>,
    b: Seq<(u64, Seq<FooterEntry>)>,
    item: (u64, Seq<FooterEntry>),
)
    requires
        joins(a, item),
        forall|x: (u64, Seq<FooterEntry>)| #[trigger] b.contains(x) ==> a.contains(x),
    ensures
        joins(b, item),
{
    assert forall|k: int| 0 <= k < b.len() implies are_compatible(#[trigger] b[k], item) by {
        assert(b.contains(b[k]));
        let i = a.index_of(b[k]);
        assert(are_compatible(a[i], item));
    }
}

/// The order of the objects does not matter for whether they can be of one log.
proof fn lemma_consistent_in_any_order(found: Seq<(u64, Seq<FooterEntry>)>)
    ensures
        is_consistent(by_seq(found)) <==> is_consistent(found),
    decreases found.len(),
{
    if found.len() > 0 {
        let rest = found.drop_last();
        let last = found.last();
        let sorted = by_seq(rest);
        lemma_consistent_in_any_order(rest);
        lemma_same_items(rest);
        let p = lemma_insert_seq_place(sorted, last);
        assert(found =~= rest.insert(rest.len() as int, last));
        if is_consistent(by_seq(found)) {
            lemma_parts_are_consistent(sorted, p, last);
            lemma_joins_any_order(sorted, rest, last);
            lemma_whole_is_consistent(rest, rest.len() as int, last);
        }
        if is_consistent(found) {
            lemma_parts_are_consistent(rest, rest.len() as int, last);
            lemma_joins_any_order(rest, sorted, last);
            lemma_whole_is_consistent(sorted, p, last);
        }
    }
}

/// The objects that are found make a log again exactly when they can be of one log, however many
/// they are and in whatever order they are found. The catalog then holds each of them, with its
/// segments, and nothing else.
pub proof fn lemma_recovery_succeeds_iff(found: Seq<(u64, Seq<FooterEntry>)>)
    ensures
        indexed(by_seq(found), found.len() as int) is Ok <==> is_consistent(found),
        indexed(by_seq(found), found.len() as int) matches Ok(catalog) ==> catalog.valid()
            && holds(catalog, found, found.len() as int),
{
    let sorted = by_seq(found);
    let n = found.len() as int;
    lemma_consistent_in_any_order(found);
    lemma_same_items(found);
    lemma_indexed_iff(sorted, n);
    lemma_indexed_is_valid(sorted, n);
    assert(sorted.take(n) =~= sorted);
    if let Ok(catalog) = indexed(sorted, n) {
        assert forall|i: int| 0 <= i < n implies catalog.objects.contains_key(
            (#[trigger] found[i]).0,
        ) && catalog.objects[found[i].0].to_multiset() == found[i].1.to_multiset() by {
            assert(found.contains(found[i]));
            assert(by_seq(found).contains(found[i]));
            let k = sorted.index_of(found[i]);
            assert(sorted[k] == found[i]);
            crate::catalog::lemma_by_region(found[i].1);
        }
        assert forall|seq: u64| #[trigger] catalog.objects.contains_key(seq) implies exists|i: int|
            0 <= i < n && (#[trigger] found[i]).0 == seq by {
            let k = choose|k: int| 0 <= k < n && (#[trigger] sorted[k]).0 == seq;
            assert(by_seq(found).contains(sorted[k]));
            let i = found.index_of(sorted[k]);
            assert(found[i].0 == seq);
        }
    }
}

/// The largest ids that recovery finds: a region has one exactly when an object holds entries of
/// it, and it is the largest id of the region in any object.
pub proof fn lemma_recovered_ids(catalog: CatalogModel)
    requires
        catalog.valid(),
    ensures
        forall|seq: u64, k: int|
            catalog.objects.contains_key(seq) && 0 <= k < catalog.objects[seq].len()
                ==> durable_ids(catalog.objects).contains_key(
                (#[trigger] catalog.objects[seq][k]).region_id.0,
            ) && catalog.objects[seq][k].max_entry_id <= durable_ids(
                catalog.objects,
            )[catalog.objects[seq][k].region_id.0],
        forall|region: u64| #[trigger]
            durable_ids(catalog.objects).contains_key(region) ==> is_id_of(
                catalog,
                region,
                durable_ids(catalog.objects)[region],
            ),
{
    let keys = ordered_keys(catalog.objects);
    lemma_lists_keys(catalog.objects);
    lemma_recovered_ids_upto(catalog, keys.len() as int);
    assert forall|seq: u64, k: int|
        catalog.objects.contains_key(seq) && 0 <= k
            < catalog.objects[seq].len() implies durable_ids(catalog.objects).contains_key(
        (#[trigger] catalog.objects[seq][k]).region_id.0,
    ) && catalog.objects[seq][k].max_entry_id <= durable_ids(
        catalog.objects,
    )[catalog.objects[seq][k].region_id.0] by {
        assert(keys.contains(seq));
        let i = keys.index_of(seq);
        assert(keys[i] == seq);
        assert(catalog.objects[keys[i]][k] == catalog.objects[seq][k]);
    }
}

/// The id is the largest of the region in one of the objects.
pub open spec fn is_id_of(catalog: CatalogModel, region: u64, id: EntryId) -> bool {
    exists|seq: u64, k: int|
        catalog.objects.contains_key(seq) && 0 <= k < catalog.objects[seq].len() && (
        #[trigger] catalog.objects[seq][k]).region_id.0 == region
            && catalog.objects[seq][k].max_entry_id == id
}

proof fn lemma_recovered_ids_upto(catalog: CatalogModel, n: int)
    requires
        catalog.valid(),
        0 <= n <= ordered_keys(catalog.objects).len(),
    ensures
        forall|i: int, k: int|
            0 <= i < n && 0 <= k < catalog.objects[ordered_keys(catalog.objects)[i]].len()
                ==> durable_ids_upto(catalog.objects, n).contains_key(
                (#[trigger] catalog.objects[ordered_keys(catalog.objects)[i]][k]).region_id.0,
            ) && catalog.objects[ordered_keys(catalog.objects)[i]][k].max_entry_id
                <= durable_ids_upto(
                catalog.objects,
                n,
            )[catalog.objects[ordered_keys(catalog.objects)[i]][k].region_id.0],
        forall|region: u64| #[trigger]
            durable_ids_upto(catalog.objects, n).contains_key(region) ==> is_id_of(
                catalog,
                region,
                durable_ids_upto(catalog.objects, n)[region],
            ),
    decreases n,
{
    let keys = ordered_keys(catalog.objects);
    lemma_lists_keys(catalog.objects);
    if n > 0 {
        lemma_recovered_ids_upto(catalog, n - 1);
        let before = durable_ids_upto(catalog.objects, n - 1);
        let after = durable_ids_upto(catalog.objects, n);
        let seq = keys[n - 1];
        assert(keys.contains(seq));
        assert(catalog.objects.contains_key(seq));
        let footer = catalog.objects[seq];
        assert(after == raised_ids(before, footer));
        assert forall|i: int, k: int|
            0 <= i < n && 0 <= k < catalog.objects[keys[i]].len() implies after.contains_key(
            (#[trigger] catalog.objects[keys[i]][k]).region_id.0,
        ) && catalog.objects[keys[i]][k].max_entry_id
            <= after[catalog.objects[keys[i]][k].region_id.0] by {
            let region = catalog.objects[keys[i]][k].region_id.0;
            if i < n - 1 {
                assert(before.contains_key(region));
            } else {
                lemma_entry_of(footer, k);
            }
        }
        assert forall|region: u64| #[trigger] after.contains_key(region) implies is_id_of(
            catalog,
            region,
            after[region],
        ) by {
            if has_region(footer, region) && after[region] == entry_of(
                footer,
                region,
            ).max_entry_id {
                let k = choose|k: int|
                    0 <= k < footer.len() && (#[trigger] footer[k]).region_id.0 == region;
                lemma_entry_of(footer, k);
                assert(catalog.objects[seq][k].max_entry_id == after[region]);
            } else {
                assert(before.contains_key(region) && before[region] == after[region]);
            }
        }
    }
}

/// A store resumes with the least sequence that is unused, whatever was collected, and cannot
/// resume exactly when no sequence that fits an entry id is unused.
pub proof fn lemma_resumes_at_the_least_unused(catalog: CatalogModel)
    requires
        catalog.valid(),
    ensures
        resumes_at(catalog) matches Some(next) ==> {
            &&& next < 17_592_186_044_416
            &&& is_unused(catalog, next as int)
            &&& forall|n: int| #[trigger] is_unused(catalog, n) ==> next <= n
        },
        resumes_at(catalog) is None ==> forall|n: int| #[trigger]
            is_unused(catalog, n) ==> n >= 17_592_186_044_416,
{
    lemma_next_seq_is_the_least_unused(catalog);
}

} // verus!
