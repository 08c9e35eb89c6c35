use std::collections::HashMap;

use greptime::batch::{ObjectBatch, OpenBatch};
use greptime::error::Error;
use greptime::id::{entry_id, RegionId, POSITION_LIMIT};
use greptime::logstore::{Entry, Provider};

fn entry(region_id: RegionId, payload_len: usize) -> Entry {
    Entry::naive(
        Provider::object_store_provider(region_id, "wal".to_string()),
        region_id,
        0,
        vec![0; payload_len],
    )
}

fn entry_ids(entries: &[Entry]) -> Vec<(RegionId, u64)> {
    entries.iter().map(|entry| (entry.region_id, entry.entry_id)).collect()
}

fn ids(pairs: &[(RegionId, u64)]) -> HashMap<u64, u64> {
    pairs.iter().map(|(region_id, id)| (region_id.as_u64(), *id)).collect()
}

#[test]
fn test_batch_assigns_entry_ids_per_region() {
    let region_a = RegionId::new(1, 1);
    let region_b = RegionId::new(1, 2);
    let mut batch = OpenBatch::new(usize::MAX, ids(&[(region_a, 5)]));

    let first = batch.admit_entries(vec![entry(region_a, 1), entry(region_b, 1)]);
    assert_eq!(ids(&[(region_a, 6), (region_b, 1)]), first);
    let second = batch.admit_entries(vec![
        entry(region_b, 1),
        entry(region_a, 1),
        entry(region_b, 1),
    ]);
    assert_eq!(ids(&[(region_a, 7), (region_b, 3)]), second);

    assert_eq!(
        vec![
            (region_a, 6),
            (region_b, 1),
            (region_b, 2),
            (region_a, 7),
            (region_b, 3),
        ],
        entry_ids(&batch.seal())
    );
    assert!(batch.is_empty());
    assert_eq!(
        ids(&[(region_a, 8)]),
        batch.admit_entries(vec![entry(region_a, 1)])
    );
}

#[test]
fn test_batch_seals_at_size_limit() {
    let region_id = RegionId::new(1, 1);
    let first = entry(region_id, 8);
    let second = entry(region_id, 8);
    let max_bytes = first.estimated_size + second.estimated_size;
    let mut batch = OpenBatch::new(max_bytes, HashMap::new());

    assert!(!batch.should_seal());
    batch.admit_entries(vec![first]);
    assert!(!batch.should_seal());
    batch.admit_entries(vec![second]);
    assert!(batch.should_seal());

    assert_eq!(2, batch.seal().len());
    assert!(!batch.should_seal());
}

#[test]
fn test_batch_reset_hands_out_the_same_ids_again() {
    let region_id = RegionId::new(1, 1);
    let mut batch = OpenBatch::new(usize::MAX, ids(&[(region_id, 3)]));

    assert_eq!(
        ids(&[(region_id, 4)]),
        batch.admit_entries(vec![entry(region_id, 1)])
    );
    batch.reset(ids(&[(region_id, 3)]));
    assert!(batch.is_empty());
    assert_eq!(
        ids(&[(region_id, 4)]),
        batch.admit_entries(vec![entry(region_id, 1)])
    );
}

#[test]
fn object_batch_numbers_entries_by_sequence_and_position() {
    let region_a = RegionId::new(1, 1);
    let region_b = RegionId::new(1, 2);
    let mut batch = ObjectBatch::new(usize::MAX);
    assert_eq!(None, batch.first_admitted_at());

    let first = batch
        .admit_entries(3, vec![entry(region_a, 1), entry(region_b, 2)], 100)
        .unwrap();
    assert_eq!(ids(&[(region_a, entry_id(3, 1)), (region_b, entry_id(3, 1))]), first);
    let second = batch.admit_entries(3, vec![entry(region_a, 4)], 200).unwrap();
    assert_eq!(ids(&[(region_a, entry_id(3, 2))]), second);
    assert_eq!(7, batch.estimated_bytes());
    assert_eq!(Some(100), batch.first_admitted_at());

    let (entries, first_admitted_at) = batch.seal();
    assert_eq!(
        vec![
            (region_a, entry_id(3, 1)),
            (region_b, entry_id(3, 1)),
            (region_a, entry_id(3, 2)),
        ],
        entry_ids(&entries)
    );
    assert_eq!(Some(100), first_admitted_at);
    assert!(batch.is_empty());
    assert_eq!(0, batch.estimated_bytes());
}

#[test]
fn object_batch_refuses_entries_without_a_position() {
    let region_a = RegionId::new(1, 1);
    let region_b = RegionId::new(1, 2);
    let entries_of = |count: u64| (0..count).map(|_| entry(region_a, 0)).collect::<Vec<_>>();
    let mut batch = ObjectBatch::new(usize::MAX);

    let error = batch.admit_entries(0, entries_of(POSITION_LIMIT), 0).unwrap_err();
    assert_eq!(Error::WalEntryPositionExhausted { region_id: region_a }, error);
    assert!(batch.is_empty());

    assert!(!batch.would_exhaust_positions(&entries_of(POSITION_LIMIT - 1)));
    let last = batch.admit_entries(0, entries_of(POSITION_LIMIT - 1), 0).unwrap();
    assert_eq!(ids(&[(region_a, entry_id(0, POSITION_LIMIT - 1))]), last);
    assert!(batch.would_exhaust_positions(&entries_of(1)));
    assert!(!batch.would_exhaust_positions(&vec![entry(region_b, 0)]));
}

#[test]
fn object_batch_seals_once_it_is_full() {
    let region_id = RegionId::new(1, 1);
    let mut batch = ObjectBatch::new(10);
    batch.admit_entries(0, vec![entry(region_id, 9)], 0).unwrap();
    assert!(!batch.should_seal());
    batch.admit_entries(0, vec![entry(region_id, 1)], 0).unwrap();
    assert!(batch.should_seal());
    batch.reset();
    assert!(!batch.should_seal());
    assert!(batch.is_empty());
}
