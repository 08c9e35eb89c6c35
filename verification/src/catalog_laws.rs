//! What the catalog does not depend on.
use vstd::prelude::*;

use crate::catalog::{
    by_region, entry_of, has_region, lemma_by_region, lemma_insert_keeps_valid,
    lemma_no_duplicate_in_increasing, lemma_no_invalid_range, CatalogModel,
};
use crate::format::FooterEntry;
use crate::recovery::lemma_no_conflict_with_part;

verus! {

/// The catalog once the first `n` of the footers were inserted into an empty one, in order, if
/// every one of them was accepted.
pub open spec fn built(items: Seq<(u64, Seq<FooterEntry>)>, n: int) -> Option<CatalogModel>
    decreases n,
{
    if n <= 0 {
        Some(CatalogModel::empty())
    } else {
        match built(items, n - 1) {
            Some(catalog) => if catalog.rejection(items[n - 1].0, items[n - 1].1) is None {
                Some(catalog.inserted(items[n - 1].0, items[n - 1].1))
            } else {
                None
            },
            None => None,
        }
    }
}

/// The catalog holds the first `n` of the footers, each under a sequence of its own.
spec fn holds_items(
    catalog: CatalogModel,
    items: Seq<(u64, Seq<FooterEntry>)>,
    n: int,
) -> bool {
    &&& forall|i: int|
        0 <= i < n ==> catalog.objects.contains_key((#[trigger] items[i]).0)
            && catalog.objects[items[i].0] == by_region(items[i].1)
    &&& forall|seq: u64| #[trigger]
        catalog.objects.contains_key(seq) ==> exists|i: int|
            0 <= i < n && (#[trigger] items[i]).0 == seq
    &&& forall|i: int, j: int|
        0 <= i < j < n ==> (#[trigger] items[i]).0 != (#[trigger] items[j]).0
}

/// The largest id of every region is the id of an indexed entry.
spec fn tight(catalog: CatalogModel) -> bool {
    forall|region: u64| #[trigger]
        catalog.max_ids.contains_key(region) ==> exists|seq: u64| #[trigger]
            catalog.region(region).contains_key(seq) && catalog.region(region)[seq].max_entry_id
                == catalog.max_ids[region]
}

proof fn lemma_built(items: Seq<(u64, Seq<FooterEntry>)>, n: int)
    requires
        0 <= n <= items.len(),
        built(items, n) is Some,
    ensures
        built(items, n)->0.valid(),
        holds_items(built(items, n)->0, items, n),
        tight(built(items, n)->0),
    decreases n,
{
    let catalog = built(items, n)->0;
    if n > 0 {
        lemma_built(items, n - 1);
        let before = built(items, n - 1)->0;
        let (seq, footer) = items[n - 1];
        lemma_insert_keeps_valid(before, seq, footer);
        assert(!before.objects.contains_key(seq));
        assert(holds_items(catalog, items, n)) by {
            assert forall|i: int| 0 <= i < n implies catalog.objects.contains_key(
                (#[trigger] items[i]).0,
            ) && catalog.objects[items[i].0] == by_region(items[i].1) by {
                if i < n - 1 {
                    assert(before.objects.contains_key(items[i].0));
                }
            }
            assert forall|s: u64| #[trigger] catalog.objects.contains_key(s) implies exists|i: int|
                0 <= i < n && (#[trigger] items[i]).0 == s by {
                if s == seq {
                    assert(items[n - 1].0 == s);
                } else {
                    assert(before.objects.contains_key(s));
                    let i = choose|i: int| 0 <= i < n - 1 && (#[trigger] items[i]).0 == s;
                    assert(items[i].0 == s);
                }
            }
            assert forall|i: int, j: int| 0 <= i < j < n implies (#[trigger] items[i]).0 != (
            #[trigger] items[j]).0 by {
                assert(before.objects.contains_key(items[i].0));
            }
        }
        assert forall|region: u64| #[trigger] catalog.max_ids.contains_key(region) implies exists|
            s: u64,
        | #[trigger]
            catalog.region(region).contains_key(s) && catalog.region(region)[s].max_entry_id
                == catalog.max_ids[region] by {
            let sorted = by_region(footer);
            if has_region(sorted, region) && catalog.max_ids[region] == entry_of(
                sorted,
                region,
            ).max_entry_id {
                assert(catalog.region(region).contains_key(seq));
            } else {
                assert(before.max_ids.contains_key(region));
                let s = choose|s: u64| #[trigger]
                    before.region(region).contains_key(s) && before.region(region)[s].max_entry_id
                        == before.max_ids[region];
                assert(before.objects.contains_key(s));
                assert(catalog.region(region).contains_key(s));
            }
        }
    } else {
        assert forall|region: u64, seq: u64| !#[trigger] catalog.region(region).contains_key(
            seq,
        ) by {}
    }
}

/// Catalogs of the same objects whose largest ids are those of indexed entries have the same
/// largest ids.
proof fn lemma_same_ids(a: CatalogModel, b: CatalogModel)
    requires
        a.valid(),
        b.valid(),
        tight(a),
        tight(b),
        a.objects == b.objects,
    ensures
        a == b,
{
    assert(a.max_ids =~= b.max_ids) by {
        assert forall|region: u64| a.max_ids.contains_key(region) <==> #[trigger]
            b.max_ids.contains_key(region) by {
            if a.max_ids.contains_key(region) {
                let seq = choose|seq: u64| #[trigger]
                    a.region(region).contains_key(seq) && a.region(region)[seq].max_entry_id
                        == a.max_ids[region];
                assert(b.region(region).contains_key(seq));
            }
            if b.max_ids.contains_key(region) {
                let seq = choose|seq: u64| #[trigger]
                    b.region(region).contains_key(seq) && b.region(region)[seq].max_entry_id
                        == b.max_ids[region];
                assert(a.region(region).contains_key(seq));
            }
        }
        assert forall|region: u64| #[trigger] a.max_ids.contains_key(region) implies
            a.max_ids[region] == b.max_ids[region] by {
            assert(b.max_ids.contains_key(region));
            let s = choose|s: u64| #[trigger]
                a.region(region).contains_key(s) && a.region(region)[s].max_entry_id
                    == a.max_ids[region];
            assert(b.region(region).contains_key(s));
            let t = choose|t: u64| #[trigger]
                b.region(region).contains_key(t) && b.region(region)[t].max_entry_id
                    == b.max_ids[region];
            assert(a.region(region).contains_key(t));
        }
    }
}

/// Some of the objects of a catalog can be inserted in any order.
proof fn lemma_built_in_order(
    catalog: CatalogModel,
    items: Seq<(u64, Seq<FooterEntry>)>,
    n: int,
)
    requires
        catalog.valid(),
        0 <= n <= items.len(),
        forall|i: int|
            0 <= i < n ==> catalog.objects.contains_key((#[trigger] items[i]).0)
                && catalog.objects[items[i].0] == by_region(items[i].1),
        forall|i: int, j: int|
            0 <= i < j < n ==> (#[trigger] items[i]).0 != (#[trigger] items[j]).0,
    ensures
        built(items, n) is Some,
    decreases n,
{
    if n > 0 {
        lemma_built_in_order(catalog, items, n - 1);
        lemma_built(items, n - 1);
        let part = built(items, n - 1)->0;
        let (seq, footer) = items[n - 1];
        let sorted = by_region(footer);
        assert(catalog.objects.contains_key(items[n - 1].0));
        lemma_by_region(footer);
        lemma_no_duplicate_in_increasing(seq, sorted, 0);
        lemma_no_invalid_range(seq, sorted, 0);
        assert(!part.objects.contains_key(seq)) by {
            if part.objects.contains_key(seq) {
                let i = choose|i: int| 0 <= i < n - 1 && (#[trigger] items[i]).0 == seq;
                assert(items[i].0 != items[n - 1].0);
            }
        }
        assert forall|s: u64| #[trigger] part.objects.contains_key(s) implies
            catalog.objects.contains_key(s) && part.objects[s] == catalog.objects[s] && s
            != seq by {
            let i = choose|i: int| 0 <= i < n - 1 && (#[trigger] items[i]).0 == s;
            assert(part.objects[items[i].0] == by_region(items[i].1));
        }
        lemma_no_conflict_with_part(catalog, part, seq, sorted, 0);
        assert(footer.len() > 0) by {
            if footer.len() == 0 {
                assert(by_region(footer) == footer);
            }
        }
        assert(part.rejection(seq, footer) is None);
    }
}

/// The catalog does not depend on the order of insertion: when a set of objects was inserted into
/// an empty catalog in one order and every one was accepted, then every one is accepted in any
/// other order too, and the catalogs are equal. What a catalog answers is a function of what it
/// holds, so the two answer alike.
pub proof fn lemma_insertion_order_does_not_matter(
    a: Seq<(u64, Seq<FooterEntry>)>,
    b: Seq<(u64, Seq<FooterEntry>)>,
)
    requires
        built(a, a.len() as int) is Some,
        b.no_duplicates(),
        forall|x: (u64, Seq<FooterEntry>)| #[trigger] a.contains(x) <==> b.contains(x),
    ensures
        built(b, b.len() as int) == built(a, a.len() as int),
{
    lemma_built(a, a.len() as int);
    let catalog = built(a, a.len() as int)->0;
    assert forall|i: int| 0 <= i < b.len() implies catalog.objects.contains_key(
        (#[trigger] b[i]).0,
    ) && catalog.objects[b[i].0] == by_region(b[i].1) by {
        assert(b.contains(b[i]) && a.contains(b[i]));
        let k = a.index_of(b[i]);
        assert(a[k] == b[i]);
    }
    assert forall|i: int, j: int| 0 <= i < j < b.len() implies (#[trigger] b[i]).0 != (
    #[trigger] b[j]).0 by {
        assert(b.contains(b[i]) && a.contains(b[i]));
        assert(b.contains(b[j]) && a.contains(b[j]));
        let k = a.index_of(b[i]);
        let m = a.index_of(b[j]);
        assert(a[k] == b[i]);
        assert(a[m] == b[j]);
        if b[i].0 == b[j].0 {
            assert(k == m);
        }
    }
    lemma_built_in_order(catalog, b, b.len() as int);
    lemma_built(b, b.len() as int);
    let other = built(b, b.len() as int)->0;
    assert(other.objects =~= catalog.objects) by {
        assert forall|seq: u64| #[trigger] catalog.objects.contains_key(seq) implies
            other.objects.contains_key(seq) && other.objects[seq] == catalog.objects[seq] by {
            let k = choose|k: int| 0 <= k < a.len() && (#[trigger] a[k]).0 == seq;
            assert(a.contains(a[k]));
            let i = b.index_of(a[k]);
            assert(b[i] == a[k]);
        }
        assert forall|seq: u64| #[trigger] other.objects.contains_key(seq) implies
            catalog.objects.contains_key(seq) by {
            let i = choose|i: int| 0 <= i < b.len() && (#[trigger] b[i]).0 == seq;
            assert(catalog.objects.contains_key(b[i].0));
        }
    }
    lemma_same_ids(catalog, other);
}

} // verus!
