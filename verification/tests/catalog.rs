use std::collections::HashMap;

use greptime::catalog::{DeletableObjects, ObjectCatalog};
use greptime::error::{Corruption, Error};
use greptime::format::FooterEntry;
use greptime::id::{entry_id, sequence_floor, EntryId, RegionId, OBJECT_SEQ_LIMIT};

fn obsolete_ids(pairs: &[(RegionId, EntryId)]) -> HashMap<u64, EntryId> {
    pairs.iter().map(|(region_id, id)| (region_id.as_u64(), *id)).collect()
}

#[test]
fn test_catalog_indexes_objects_and_queries_ranges() {
    let region_one = RegionId::new(1, 1);
    let region_two = RegionId::new(2, 1);
    let mut catalog = ObjectCatalog::new();

    // Recovery may discover objects out of order.
    catalog
        .insert_object(
            2,
            vec![
                footer_entry(region_one, 4, 6),
                footer_entry(region_two, 8, 9),
            ],
        )
        .unwrap();
    catalog
        .insert_object(1, vec![footer_entry(region_one, 1, 3)])
        .unwrap();
    catalog
        .insert_object(4, vec![footer_entry(region_one, 10, 12)])
        .unwrap();

    assert_eq!(Some(12), catalog.region_max_entry_id(region_one));
    assert_eq!(Some(9), catalog.region_max_entry_id(region_two));
    assert_eq!(None, catalog.region_max_entry_id(RegionId::new(3, 1)));

    let objects = catalog.objects_for_entry_range(region_one, 3, 10).unwrap();
    assert_eq!(vec![1, 2, 4], object_seqs(&objects));
    assert_eq!(vec![1, 2, 4], object_seqs_of(&catalog));
}

#[test]
fn test_catalog_rejects_duplicate_object_sequences() {
    let region_id = RegionId::new(1, 1);
    let mut catalog = ObjectCatalog::new();
    let first = footer_entry(region_id, 1, 2);
    let second = footer_entry(RegionId::new(2, 1), 4, 5);

    catalog.insert_object(1, vec![first, second]).unwrap();

    // An identical footer is rejected just like a conflicting one.
    assert_corrupted(
        catalog.insert_object(1, vec![second, first]),
        "object 1 is already indexed",
    );

    let mut conflicting = first;
    conflicting.segment_offset += 1;
    assert_corrupted(
        catalog.insert_object(1, vec![conflicting]),
        "object 1 is already indexed",
    );
    assert_eq!(1, catalog.objects_in_order().len());
}

#[test]
fn test_catalog_resumes_object_sequence_after_recovery() {
    let region_id = RegionId::new(1, 1);
    let mut catalog = ObjectCatalog::new();
    assert_eq!(0, catalog.next_object_seq().unwrap());

    // Recovery may discover objects out of order.
    catalog
        .insert_object(4, vec![footer_entry(region_id, 10, 12)])
        .unwrap();
    catalog
        .insert_object(1, vec![footer_entry(region_id, 1, 3)])
        .unwrap();

    assert_eq!(5, catalog.next_object_seq().unwrap());
}

#[test]
fn test_catalog_raises_object_sequence_above_existing_entry_ids() {
    let region_one = RegionId::new(1, 1);
    let region_two = RegionId::new(1, 2);
    let mut catalog = ObjectCatalog::new();

    // Ids that fit below the ids of the next sequence leave it alone.
    catalog
        .insert_object(0, vec![footer_entry(region_one, 1, 3)])
        .unwrap();
    catalog
        .insert_object(
            1,
            vec![footer_entry(region_two, entry_id(1, 1), entry_id(1, 2))],
        )
        .unwrap();
    assert_eq!(2, catalog.next_object_seq().unwrap());

    // A contiguous id past them names a later object: the sequence
    // resumes above it, whichever region holds it.
    catalog
        .insert_object(2, vec![footer_entry(region_one, 5_000_000, 5_000_000)])
        .unwrap();
    assert_eq!(5, catalog.next_object_seq().unwrap());
    catalog
        .insert_object(
            3,
            vec![footer_entry(region_two, entry_id(7, 4), entry_id(7, 4))],
        )
        .unwrap();
    assert_eq!(8, catalog.next_object_seq().unwrap());
}

#[test]
fn test_catalog_deletable_objects_follow_the_watermarks() {
    let region_one = RegionId::new(1, 1);
    let region_two = RegionId::new(2, 1);
    let mut catalog = ObjectCatalog::new();
    catalog
        .insert_object(
            0,
            vec![
                footer_entry(region_one, entry_id(0, 1), entry_id(0, 1)),
                footer_entry(region_two, entry_id(0, 1), entry_id(0, 1)),
            ],
        )
        .unwrap();
    catalog
        .insert_object(
            1,
            vec![footer_entry(region_one, entry_id(1, 1), entry_id(1, 2))],
        )
        .unwrap();
    catalog
        .insert_object(
            2,
            vec![footer_entry(region_two, entry_id(2, 1), entry_id(2, 1))],
        )
        .unwrap();
    catalog
        .insert_object(
            3,
            vec![footer_entry(region_one, entry_id(3, 1), entry_id(3, 1))],
        )
        .unwrap();

    // Without watermarks nothing is deletable.
    assert!(deletable(&catalog, &HashMap::new()).is_empty());
    // A watermark inside object 1 keeps it; object 0 holds a segment of
    // a region without a watermark.
    let mut obsolete = obsolete_ids(&[(region_one, entry_id(1, 1))]);
    assert!(deletable(&catalog, &obsolete).is_empty());
    // A watermark at the last id of the segment releases object 1.
    obsolete.insert(region_one.as_u64(), entry_id(1, 2));
    assert_eq!(vec![1], deletable(&catalog, &obsolete));
    // Object 0 needs both regions at or above its segments; object 2 is
    // above the watermark of region two.
    obsolete.insert(region_two.as_u64(), entry_id(0, 1));
    assert_eq!(vec![0, 1], deletable(&catalog, &obsolete));
    // The highest-sequence object is kept whatever the watermarks.
    obsolete.insert(region_one.as_u64(), EntryId::MAX);
    obsolete.insert(region_two.as_u64(), EntryId::MAX);
    assert_eq!(vec![0, 1, 2], deletable(&catalog, &obsolete));

    // Removing objects keeps the largest entry id of every region, so a
    // region whose last object is gone still reports it.
    for object_seq in [0, 1, 2] {
        catalog.remove_object(object_seq);
    }
    catalog.remove_object(7);
    assert_eq!(vec![3], object_seqs_of(&catalog));
    assert!(!catalog.contains_object(2));
    assert!(catalog.contains_object(3));
    assert_eq!(
        Some(entry_id(3, 1)),
        catalog.region_max_entry_id(region_one)
    );
    assert_eq!(
        Some(entry_id(2, 1)),
        catalog.region_max_entry_id(region_two)
    );
    assert!(catalog
        .objects_for_entry_range(region_two, 0, EntryId::MAX)
        .unwrap()
        .is_empty());
    assert!(deletable(&catalog, &obsolete).is_empty());
    assert_eq!(4, catalog.next_object_seq().unwrap());
}

#[test]
fn test_catalog_scan_is_bounded_and_resumes_where_it_stopped() {
    let retained = RegionId::new(1, 1);
    let collectible = RegionId::new(2, 1);
    let mut catalog = ObjectCatalog::new();
    let insert = |catalog: &mut ObjectCatalog, object_seq, region_id| {
        catalog
            .insert_object(
                object_seq,
                vec![footer_entry(
                    region_id,
                    entry_id(object_seq, 1),
                    entry_id(object_seq, 1),
                )],
            )
            .unwrap();
    };
    // Twenty objects of a region that never gets a watermark, then nine
    // of a region that does, then the object that is always kept.
    for object_seq in 0..20 {
        insert(&mut catalog, object_seq, retained);
    }
    for object_seq in 20..30 {
        insert(&mut catalog, object_seq, collectible);
    }
    let obsolete = obsolete_ids(&[(collectible, entry_id(29, 1))]);

    // A pass inspects at most the scan bound and says where to resume,
    // whether or not it accepted anything, so the objects of the region
    // without a watermark are walked once per sweep, not once per pass.
    let mut pass = catalog.deletable_objects(&obsolete, 0, 4, 8);
    assert_eq!(
        DeletableObjects {
            objects: Vec::new(),
            resume_from: 8,
        },
        pass
    );
    pass = catalog.deletable_objects(&obsolete, pass.resume_from, 4, 8);
    assert_eq!(
        DeletableObjects {
            objects: Vec::new(),
            resume_from: 16,
        },
        pass
    );

    // The pass that reaches the collectible objects stops at the scan
    // bound with what it accepted so far.
    pass = catalog.deletable_objects(&obsolete, pass.resume_from, 4, 8);
    assert_eq!(
        DeletableObjects {
            objects: vec![20, 21, 22, 23],
            resume_from: 24,
        },
        pass
    );

    // The next one continues after them rather than at the beginning,
    // and stops at the candidate bound this time.
    pass = catalog.deletable_objects(&obsolete, pass.resume_from, 4, 8);
    assert_eq!(
        DeletableObjects {
            objects: vec![24, 25, 26, 27],
            resume_from: 28,
        },
        pass
    );

    // Object 29 is the one that is always kept, so the pass that reaches
    // it ends the sweep and wraps.
    pass = catalog.deletable_objects(&obsolete, pass.resume_from, 4, 8);
    assert_eq!(
        DeletableObjects {
            objects: vec![28],
            resume_from: 0,
        },
        pass
    );
    // A cursor past everything wraps as well.
    assert_eq!(
        DeletableObjects {
            objects: Vec::new(),
            resume_from: 0,
        },
        catalog.deletable_objects(&obsolete, 1_000, 4, 8)
    );
    // The bounds do not change which objects are deletable.
    assert_eq!(
        (20..29).collect::<Vec<u64>>(),
        deletable(&catalog, &obsolete)
    );
}

#[test]
fn test_catalog_holds_deletion_while_contiguous_ids_name_a_later_object() {
    let region_one = RegionId::new(1, 1);
    let region_two = RegionId::new(2, 1);
    let mut catalog = ObjectCatalog::new();
    // Objects of the contiguous scheme: id 5_000_000 names object 4, so
    // the sequence resumes at 5 although object 2 is the highest.
    catalog
        .insert_object(0, vec![footer_entry(region_one, 1, 2)])
        .unwrap();
    catalog
        .insert_object(1, vec![footer_entry(region_one, 4_999_999, 5_000_000)])
        .unwrap();
    catalog
        .insert_object(2, vec![footer_entry(region_two, 1, 1)])
        .unwrap();
    assert_eq!(5, catalog.next_object_seq().unwrap());

    // Every object is below its watermark, but object 2 alone could not
    // resume the sequence above 5_000_000: nothing is deletable.
    let obsolete = obsolete_ids(&[(region_one, 5_000_000), (region_two, 1)]);
    assert!(deletable(&catalog, &obsolete).is_empty());

    // An object durable at the raised sequence resumes it on its own, so
    // the old objects go and it is kept, even under a watermark at its
    // own entry.
    catalog
        .insert_object(
            5,
            vec![footer_entry(region_two, entry_id(5, 1), entry_id(5, 1))],
        )
        .unwrap();
    assert_eq!(vec![0, 1, 2], deletable(&catalog, &obsolete));
    let obsolete = obsolete_ids(&[(region_one, 5_000_000), (region_two, entry_id(5, 1))]);
    assert_eq!(vec![0, 1, 2], deletable(&catalog, &obsolete));
    for object_seq in [0, 1, 2] {
        catalog.remove_object(object_seq);
    }
    assert_eq!(vec![5], object_seqs_of(&catalog));
    assert_eq!(6, catalog.next_object_seq().unwrap());
}

#[test]
fn test_catalog_rejects_exhausted_object_sequence() {
    let region_id = RegionId::new(1, 1);
    let assert_exhausted = |catalog: &ObjectCatalog| {
        let error = catalog.next_object_seq().unwrap_err();
        assert!(
            error.message().contains("object sequence is exhausted"),
            "unexpected error: {error:?}"
        );
    };

    // The last sequence that fits an entry id is indexed.
    let mut catalog = ObjectCatalog::new();
    catalog
        .insert_object(OBJECT_SEQ_LIMIT - 2, vec![footer_entry(region_id, 1, 2)])
        .unwrap();
    assert_eq!(OBJECT_SEQ_LIMIT - 1, catalog.next_object_seq().unwrap());
    catalog
        .insert_object(OBJECT_SEQ_LIMIT - 1, vec![footer_entry(region_id, 3, 4)])
        .unwrap();
    assert_exhausted(&catalog);

    // A sequence that does not fit was written by an earlier scheme.
    let mut catalog = ObjectCatalog::new();
    catalog
        .insert_object(u64::MAX, vec![footer_entry(region_id, 1, 2)])
        .unwrap();
    assert_exhausted(&catalog);

    // An entry id that leaves no sequence above it.
    let mut catalog = ObjectCatalog::new();
    catalog
        .insert_object(0, vec![footer_entry(region_id, u64::MAX, u64::MAX)])
        .unwrap();
    assert_exhausted(&catalog);
}

#[test]
fn test_catalog_rejects_overlapping_or_reversed_region_ranges() {
    let region_id = RegionId::new(1, 1);
    let mut catalog = ObjectCatalog::new();
    catalog
        .insert_object(2, vec![footer_entry(region_id, 10, 20)])
        .unwrap();

    assert_corrupted(
        catalog.insert_object(3, vec![footer_entry(region_id, 20, 30)]),
        "are not strictly increasing",
    );
    assert_corrupted(
        catalog.insert_object(3, vec![footer_entry(region_id, 5, 9)]),
        "are not strictly increasing",
    );
    assert_corrupted(
        catalog.insert_object(1, vec![footer_entry(region_id, 15, 19)]),
        "are not strictly increasing",
    );
    assert_eq!(1, catalog.objects_in_order().len());
}

#[test]
fn test_catalog_rejects_duplicate_region_and_invalid_ranges() {
    let region_id = RegionId::new(1, 1);
    let mut catalog = ObjectCatalog::new();
    assert_corrupted(
        catalog.insert_object(
            1,
            vec![footer_entry(region_id, 1, 1), footer_entry(region_id, 2, 2)],
        ),
        "duplicate footer entries",
    );
    assert_corrupted(
        catalog.insert_object(1, vec![]),
        "object 1 has an empty footer",
    );

    let mut invalid = footer_entry(region_id, 2, 1);
    invalid.entry_count = 0;
    assert_corrupted(
        catalog.insert_object(1, vec![invalid]),
        "has invalid entry range 2..=1",
    );

    let error = catalog
        .objects_for_entry_range(region_id, 2, 1)
        .unwrap_err();
    assert!(
        matches!(error, Error::InvalidWalEntryRange { start_entry_id, end_entry_id, .. } if start_entry_id == 2 && end_entry_id == 1),
        "unexpected error: {error:?}"
    );
}

#[test]
fn catalog_names_what_is_out_of_order() {
    let region_id = RegionId::new(1, 2);
    let mut catalog = ObjectCatalog::new();
    catalog
        .insert_object(2, vec![footer_entry(region_id, 10, 20)])
        .unwrap();
    let reason = Corruption::OutOfOrder {
        region_id,
        lower_object_seq: 2,
        lower_max_entry_id: 20,
        upper_object_seq: 5,
        upper_min_entry_id: 20,
    };
    assert_eq!(
        Err(Error::CorruptedWalObject { reason }),
        catalog.insert_object(5, vec![footer_entry(region_id, 20, 21)])
    );
    assert_eq!(
        "entry ranges of region 4294967298(1, 2) are not strictly increasing, \
         object 2 ends at 20, object 5 starts at 20",
        reason.message()
    );
}

#[test]
fn catalog_footers_are_kept_in_region_order() {
    let region_one = RegionId::new(1, 1);
    let region_two = RegionId::new(2, 1);
    let mut catalog = ObjectCatalog::new();
    catalog
        .insert_object(
            0,
            vec![footer_entry(region_two, 1, 1), footer_entry(region_one, 2, 2)],
        )
        .unwrap();
    let objects = catalog.objects_in_order();
    assert_eq!(0, objects[0].0);
    assert_eq!(
        vec![region_one, region_two],
        objects[0].1.iter().map(|entry| entry.region_id).collect::<Vec<_>>()
    );
}

#[test]
fn catalog_does_not_depend_on_the_order_of_insertion() {
    let one = RegionId::new(1, 1);
    let two = RegionId::new(2, 1);
    let objects = [
        (0, vec![footer_entry(one, 1, 4), footer_entry(two, 1, 2)]),
        (3, vec![footer_entry(two, 3, 9)]),
        (5, vec![footer_entry(two, 10, 11), footer_entry(one, 5, 5)]),
        (6, vec![footer_entry(one, 6, 8)]),
    ];
    let obsolete = obsolete_ids(&[(one, 5), (two, 11)]);
    let build = |order: [usize; 4]| {
        let mut catalog = ObjectCatalog::new();
        for place in order {
            let (object_seq, footer) = objects[place].clone();
            catalog.insert_object(object_seq, footer).unwrap();
        }
        catalog
    };
    let expected = build([0, 1, 2, 3]);
    for order in [[3, 2, 1, 0], [2, 0, 3, 1], [1, 3, 0, 2]] {
        let catalog = build(order);
        assert_eq!(expected.objects_in_order(), catalog.objects_in_order());
        for region_id in [one, two] {
            assert_eq!(
                expected.region_max_entry_id(region_id),
                catalog.region_max_entry_id(region_id)
            );
            assert_eq!(
                expected.objects_for_entry_range(region_id, 2, 10).unwrap(),
                catalog.objects_for_entry_range(region_id, 2, 10).unwrap()
            );
        }
        assert_eq!(
            expected.deletable_objects(&obsolete, 0, 2, 8),
            catalog.deletable_objects(&obsolete, 0, 2, 8)
        );
        assert_eq!(
            expected.next_object_seq().unwrap(),
            catalog.next_object_seq().unwrap()
        );
    }
    assert_eq!(vec![0, 3, 5], deletable(&expected, &obsolete));
}

#[test]
fn sequence_floor_is_the_least_sequence_above_an_id() {
    assert_eq!(0, sequence_floor(0));
    assert_eq!(1, sequence_floor(1));
    assert_eq!(1, sequence_floor(3));
    assert_eq!(5, sequence_floor(5_000_000));
    assert_eq!(8, sequence_floor(entry_id(7, 4)));
    assert_eq!(7, sequence_floor(7 << 20));
    assert_eq!(OBJECT_SEQ_LIMIT, sequence_floor(u64::MAX));
    assert_eq!(7 << 20 | 4, entry_id(7, 4));
}

#[test]
fn region_ids_hold_the_table_and_the_number() {
    let region_id = RegionId::new(7, 9);
    assert_eq!(7 << 32 | 9, region_id.as_u64());
    assert_eq!(7, region_id.table_id());
    assert_eq!(9, region_id.region_number());
}

fn footer_entry(region_id: RegionId, min_entry_id: u64, max_entry_id: u64) -> FooterEntry {
    FooterEntry {
        region_id,
        min_entry_id,
        max_entry_id,
        entry_count: max_entry_id
            .checked_sub(min_entry_id)
            .and_then(|count| count.checked_add(1))
            .unwrap_or(0) as u32,
        segment_offset: min_entry_id.wrapping_mul(100),
        segment_len: 100,
        segment_crc32: min_entry_id as u32,
    }
}

fn object_seqs(objects: &[(u64, FooterEntry)]) -> Vec<u64> {
    objects.iter().map(|(object_seq, _)| *object_seq).collect()
}

/// The whole deletable set in one unbounded pass, for the tests that do not
/// exercise the bounds.
fn deletable(catalog: &ObjectCatalog, obsolete: &HashMap<u64, EntryId>) -> Vec<u64> {
    catalog
        .deletable_objects(obsolete, 0, usize::MAX, usize::MAX)
        .objects
}

fn object_seqs_of(catalog: &ObjectCatalog) -> Vec<u64> {
    catalog
        .objects_in_order()
        .iter()
        .map(|(object_seq, _)| *object_seq)
        .collect()
}

fn assert_corrupted(result: Result<(), Error>, expected_reason: &str) {
    match result {
        Err(Error::CorruptedWalObject { reason }) => assert!(
            reason.message().contains(expected_reason),
            "expected reason to contain {expected_reason:?}, actual {reason:?}"
        ),
        other => panic!("expected a corrupted object error, actual {other:?}"),
    }
}
