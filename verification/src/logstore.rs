//! What a log store is given and gives back: providers, entries and responses.
use std::collections::HashMap;

use vstd::prelude::*;

use crate::id::{EntryId, RegionId};

verus! {

/// The kinds of providers of a log.
#[derive(Clone, Copy, Debug, PartialEq, Eq, Structural)]
pub enum ProviderKind {
    RaftEngine,
    Kafka,
    ObjectStore,
    Noop,
    External,
}

/// Selects the log of a region among the objects under a prefix.
#[derive(Debug, PartialEq, Eq)]
pub struct ObjectStoreProvider {
    pub region_id: RegionId,
    pub prefix: String,
}

/// Selects where the log of a region is kept.
#[derive(Debug, PartialEq, Eq)]
pub enum Provider {
    ObjectStore(ObjectStoreProvider),
    /// A provider that an object store does not serve.
    Other(ProviderKind),
}

impl Clone for Provider {
    fn clone(&self) -> (copy: Provider)
        ensures
            copy == *self,
    {
        match self {
            Provider::ObjectStore(provider) => Provider::ObjectStore(
                ObjectStoreProvider {
                    region_id: provider.region_id,
                    prefix: provider.prefix.clone(),
                },
            ),
            Provider::Other(kind) => Provider::Other(*kind),
        }
    }
}

impl Provider {
    /// The provider of the region under the prefix.
    pub fn object_store_provider(region_id: RegionId, prefix: String) -> (provider: Provider)
        ensures
            provider == Provider::ObjectStore(ObjectStoreProvider { region_id, prefix }),
    {
        Provider::ObjectStore(ObjectStoreProvider { region_id, prefix })
    }

    /// The kind of a provider.
    pub open spec fn spec_kind(self) -> ProviderKind {
        match self {
            Provider::ObjectStore(_) => ProviderKind::ObjectStore,
            Provider::Other(kind) => kind,
        }
    }

    /// The kind of the provider.
    pub fn kind(&self) -> (kind: ProviderKind)
        ensures
            kind == self.spec_kind(),
    {
        match self {
            Provider::ObjectStore(_) => ProviderKind::ObjectStore,
            Provider::Other(kind) => *kind,
        }
    }
}

/// An entry of a region's log.
#[derive(Debug, PartialEq, Eq)]
pub struct Entry {
    pub provider: Provider,
    pub region_id: RegionId,
    pub entry_id: EntryId,
    pub data: Vec<u8>,
    /// Whether every part of the entry is there.
    pub complete: bool,
    /// The memory that the entry takes.
    pub estimated_size: usize,
}

/// A whole entry, which takes the memory of its data.
pub open spec fn naive_entry(
    provider: Provider,
    region_id: RegionId,
    entry_id: EntryId,
    data: Vec<u8>,
) -> Entry {
    Entry {
        provider,
        region_id,
        entry_id,
        data,
        complete: true,
        estimated_size: data@.len() as usize,
    }
}

impl Entry {
    /// Makes a whole entry, which takes the memory of its data.
    pub fn naive(
        provider: Provider,
        region_id: RegionId,
        entry_id: EntryId,
        data: Vec<u8>,
    ) -> (entry: Entry)
        ensures
            entry == naive_entry(provider, region_id, entry_id, data),
            entry.estimated_size == data@.len(),
    {
        let estimated_size: usize = data.len();
        Entry { provider, region_id, entry_id, data, complete: true, estimated_size }
    }
}

/// The entry under another id.
pub open spec fn with_id(entry: Entry, entry_id: EntryId) -> Entry {
    Entry { entry_id, ..entry }
}

/// The number of entries of the region.
pub open spec fn count_region(entries: Seq<Entry>, region: u64) -> nat
    decreases entries.len(),
{
    if entries.len() == 0 {
        0
    } else {
        count_region(entries.drop_last(), region) + (if entries.last().region_id.0 == region {
            1nat
        } else {
            0nat
        })
    }
}

/// The memory that the entries take.
pub open spec fn total_size(entries: Seq<Entry>) -> nat
    decreases entries.len(),
{
    if entries.len() == 0 {
        0
    } else {
        total_size(entries.drop_last()) + entries.last().estimated_size as nat
    }
}

/// Counting over two sequences of entries adds up.
pub proof fn lemma_count_concat(a: Seq<Entry>, b: Seq<Entry>, region: u64)
    ensures
        count_region(a + b, region) == count_region(a, region) + count_region(b, region),
    decreases b.len(),
{
    if b.len() == 0 {
        assert(a + b =~= a);
    } else {
        lemma_count_concat(a, b.drop_last(), region);
        assert((a + b).drop_last() =~= a + b.drop_last());
    }
}

/// The size of two sequences of entries adds up.
pub proof fn lemma_size_concat(a: Seq<Entry>, b: Seq<Entry>)
    ensures
        total_size(a + b) == total_size(a) + total_size(b),
    decreases b.len(),
{
    if b.len() == 0 {
        assert(a + b =~= a);
    } else {
        lemma_size_concat(a, b.drop_last());
        assert((a + b).drop_last() =~= a + b.drop_last());
    }
}

/// A longer stretch of entries holds at least as many of a region.
pub proof fn lemma_count_monotone(entries: Seq<Entry>, region: u64, i: int, j: int)
    requires
        0 <= i <= j <= entries.len(),
    ensures
        count_region(entries.take(i), region) <= count_region(entries.take(j), region),
        count_region(entries.take(j), region) - count_region(entries.take(i), region) <= j - i,
        total_size(entries.take(i)) <= total_size(entries.take(j)),
    decreases j - i,
{
    if i < j {
        lemma_count_monotone(entries, region, i, j - 1);
        assert(entries.take(j).drop_last() =~= entries.take(j - 1));
    }
}

/// A region of which there are entries is the region of one of them.
pub proof fn lemma_count_positive(entries: Seq<Entry>, region: u64)
    ensures
        count_region(entries, region) > 0 <==> exists|i: int|
            0 <= i < entries.len() && (#[trigger] entries[i]).region_id.0 == region,
        count_region(entries, region) <= entries.len(),
    decreases entries.len(),
{
    if entries.len() > 0 {
        let rest = entries.drop_last();
        lemma_count_positive(rest, region);
        if count_region(rest, region) > 0 {
            let i = choose|i: int|
                0 <= i < rest.len() && (#[trigger] rest[i]).region_id.0 == region;
            assert(entries[i].region_id.0 == region);
        }
        if exists|i: int| 0 <= i < entries.len() && (#[trigger] entries[i]).region_id.0 == region {
            let i = choose|i: int|
                0 <= i < entries.len() && (#[trigger] entries[i]).region_id.0 == region;
            if i < rest.len() {
                assert(rest[i].region_id.0 == region);
            }
        }
        if entries.last().region_id.0 == region {
            assert(entries[entries.len() - 1].region_id.0 == region);
        }
    }
}

/// Locates the log of a region.
#[derive(Clone, Copy, Debug)]
pub struct WalIndex {
    pub region_id: RegionId,
    pub location_id: u64,
}

impl WalIndex {
    /// The location `location_id` of the region.
    pub fn new(region_id: RegionId, location_id: u64) -> (index: WalIndex)
        ensures
            index.region_id == region_id,
            index.location_id == location_id,
    {
        WalIndex { region_id, location_id }
    }
}

/// The response of an append of one entry.
#[derive(Debug)]
pub struct AppendResponse {
    /// The id of the entry appended to the log store.
    pub last_entry_id: EntryId,
}

impl Default for AppendResponse {
    fn default() -> (response: AppendResponse)
        ensures
            response.last_entry_id == 0,
    {
        AppendResponse { last_entry_id: 0 }
    }
}

/// The response of an append of several entries.
#[derive(Debug)]
pub struct AppendBatchResponse {
    /// The id of the last entry written of each region, by the region's integer id.
    pub last_entry_ids: HashMap<u64, EntryId>,
}

impl Default for AppendBatchResponse {
    fn default() -> (response: AppendBatchResponse)
        ensures
            response.last_entry_ids@ == Map::<u64, EntryId>::empty(),
    {
        AppendBatchResponse { last_entry_ids: HashMap::new() }
    }
}

} // verus!
