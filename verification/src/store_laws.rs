//! What the store accepts, and what it makes of the outcomes it is told.
use vstd::prelude::*;

use crate::actor_model::AckMode;
use crate::catalog::{has_region, CatalogModel};
use crate::config::{CorruptedSegmentAction, ObjectStoreWalConfig};
use crate::error::{Error, InvalidSetting};
use crate::id::{EntryId, RegionId};
use crate::logstore::{Entry, Provider};
use crate::object::{create_result, is_parent_component, is_prefix, PutOutcome, ReadBack};
use crate::store::{
    entries_check, entry_error, entry_fits, has_entries, lists_regions, region_check, region_in,
    watermark_for, HoleModel, StoreError, StoreModel,
};

verus! {

/// The provider is that of an object store with the prefix, for the region.
pub open spec fn selects(provider: Provider, prefix: Seq<char>, region_id: RegionId) -> bool {
    provider matches Provider::ObjectStore(selected) && selected.prefix@ == prefix
        && selected.region_id == region_id
}

/// A provider is served exactly when it is one of an object store with the prefix of the store,
/// whatever its region; any other is an error.
pub proof fn lemma_provider_is_served(prefix: Seq<char>, provider: Provider)
    ensures
        forall|region_id: RegionId| #[trigger]
            selects(provider, prefix, region_id) <==> region_in(prefix, provider) == Some(
                region_id,
            ),
        region_in(prefix, provider) is None <==> !(provider matches Provider::ObjectStore(selected)
            && selected.prefix@ == prefix),
{
}

/// A request for a region goes through exactly when the store has not failed and the provider
/// selects the prefix and that region.
pub proof fn lemma_region_goes_through(
    store: StoreModel,
    provider: Provider,
    region_id: RegionId,
    result: Result<(), StoreError>,
)
    requires
        region_check(store, provider, region_id, result),
    ensures
        result is Ok <==> store.actor.terminal is None && selects(
            provider,
            store.prefix,
            region_id,
        ),
        store.actor.terminal matches Some(error) ==> result == Err::<(), StoreError>(
            StoreError::Shared(error),
        ),
{
}

/// Entries can be appended exactly when every one of them is complete and its provider selects the
/// prefix and the region of the entry, whatever its data and id.
pub proof fn lemma_entries_can_be_appended(
    store: StoreModel,
    entries: Seq<Entry>,
    result: Result<(), StoreError>,
)
    requires
        entries_check(store, entries, result),
    ensures
        result is Ok <==> forall|i: int|
            0 <= i < entries.len() ==> (#[trigger] entries[i]).complete && selects(
                entries[i].provider,
                store.prefix,
                entries[i].region_id,
            ),
{
    if let Err(error) = result {
        let i = choose|i: int|
            0 <= i < entries.len() && #[trigger] entry_error(store.prefix, entries[i], error)
                && forall|k: int| 0 <= k < i ==> entry_fits(store.prefix, #[trigger] entries[k]);
        assert(!(entries[i].complete && selects(
            entries[i].provider,
            store.prefix,
            entries[i].region_id,
        )));
    } else {
        assert forall|i: int| 0 <= i < entries.len() implies (#[trigger] entries[i]).complete
            && selects(entries[i].provider, store.prefix, entries[i].region_id) by {
            assert(entry_fits(store.prefix, entries[i]));
        }
    }
}

/// The watermark that is asked for is never above the id that was given. In the durable mode it is
/// that id. In the enqueued mode it is that id as far as the region is durable, and the largest
/// durable id beyond that.
pub proof fn lemma_watermark_is_clamped(store: StoreModel, region: u64, entry_id: EntryId)
    ensures
        ({
            let watermark = watermark_for(store, region, entry_id);
            let ids = store.actor.catalog.max_ids;
            &&& watermark <= entry_id
            &&& store.actor.ack_mode == AckMode::Durable ==> watermark == entry_id
            &&& store.actor.ack_mode == AckMode::Enqueued && ids.contains_key(region) ==> {
                &&& watermark <= ids[region]
                &&& entry_id <= ids[region] ==> watermark == entry_id
                &&& entry_id >= ids[region] ==> watermark == ids[region]
            }
            &&& store.actor.ack_mode == AckMode::Enqueued && !ids.contains_key(region)
                ==> watermark == 0
        }),
{
}

/// A hole is recorded once per object and region: the first one stays, and no other hole changes.
pub proof fn lemma_hole_is_recorded(store: StoreModel, region: u64, hole: HoleModel)
    ensures
        ({
            let after = store.with_hole(region, hole);
            &&& after.holes.contains_key(region)
            &&& after.holes[region].contains_key(hole.object_seq)
            &&& after.holes[region][hole.object_seq] == (if store.holes.contains_key(region)
                && store.holes[region].contains_key(hole.object_seq) {
                store.holes[region][hole.object_seq]
            } else {
                hole
            })
            &&& forall|seq: u64|
                seq != hole.object_seq ==> (#[trigger] after.holes[region].contains_key(seq)
                    <==> store.holes.contains_key(region) && store.holes[region].contains_key(seq))
            &&& forall|seq: u64|
                seq != hole.object_seq && store.holes.contains_key(region)
                    && #[trigger] store.holes[region].contains_key(seq)
                    ==> after.holes[region][seq] == store.holes[region][seq]
            &&& forall|other: u64|
                other != region ==> (#[trigger] after.holes.contains_key(other)
                    <==> store.holes.contains_key(other))
            &&& forall|other: u64|
                other != region && #[trigger] store.holes.contains_key(other)
                    ==> after.holes[other] == store.holes[other]
            &&& after == (StoreModel { holes: after.holes, ..store })
        }),
{
}

/// A store can be opened exactly when its prefix can hold objects, the flush interval is at least
/// ten milliseconds, both sizes are positive and can be counted, and the age is positive. The
/// settings of the enqueued mode are checked in either mode.
pub proof fn lemma_settings_are_valid(config: ObjectStoreWalConfig)
    ensures
        config.invalid_setting() is None <==> {
            &&& is_prefix(config.prefix@)
            &&& config.flush_interval >= 10_000_000
            &&& 0 < config.max_batch_bytes <= usize::MAX
            &&& 0 < config.max_unpersisted_bytes <= usize::MAX
            &&& 0 < config.max_unpersisted_age
        },
        config.invalid_setting() matches Some(InvalidSetting::Prefix) ==> !is_prefix(
            config.prefix@,
        ),
        config.invalid_setting() matches Some(InvalidSetting::FlushInterval { nanos }) ==> nanos
            == config.flush_interval && nanos < 10_000_000,
        config.invalid_setting() matches Some(InvalidSetting::MaxBatchBytes { bytes }) ==> bytes
            == config.max_batch_bytes && !(0 < bytes <= usize::MAX),
        config.invalid_setting() matches Some(InvalidSetting::MaxUnpersistedBytes { bytes })
            ==> bytes == config.max_unpersisted_bytes && !(0 < bytes <= usize::MAX),
        config.invalid_setting() matches Some(InvalidSetting::MaxUnpersistedAge)
            ==> config.max_unpersisted_age == 0,
{
}

/// The characters from `start` to `end` are a component of the prefix: no slash is among them, and
/// each side is a slash or an end of the prefix.
pub open spec fn is_component(prefix: Seq<char>, start: int, end: int) -> bool {
    &&& 0 <= start <= end <= prefix.len()
    &&& start == 0 || prefix[start - 1] == '/'
    &&& end == prefix.len() || prefix[end] == '/'
    &&& forall|i: int| start <= i < end ==> #[trigger] prefix[i] != '/'
}

/// Objects can be kept under a prefix exactly when none of its components is empty and none names
/// the parent.
pub proof fn lemma_prefix_by_components(prefix: Seq<char>)
    ensures
        is_prefix(prefix) <==> forall|start: int, end: int| #[trigger]
            is_component(prefix, start, end) ==> start < end && prefix.subrange(start, end)
                != seq!['.', '.'],
{
    if is_prefix(prefix) {
        assert forall|start: int, end: int| #[trigger]
            is_component(prefix, start, end) implies start < end && prefix.subrange(start, end)
            != seq!['.', '.'] by {
            if start == end {
                if start > 0 {
                    assert(prefix[start - 1] == '/');
                }
                if end < prefix.len() {
                    assert(prefix[end] == '/');
                }
            }
            if prefix.subrange(start, end) == seq!['.', '.'] {
                let part = prefix.subrange(start, end);
                assert(part.len() == 2);
                assert(part[0] == '.' && part[1] == '.');
                assert(prefix[start] == '.' && prefix[start + 1] == '.');
                assert(is_parent_component(prefix, start));
            }
        }
    }
    if forall|start: int, end: int| #[trigger]
        is_component(prefix, start, end) ==> start < end && prefix.subrange(start, end)
            != seq!['.', '.'] {
        if prefix.len() == 0 {
            assert(is_component(prefix, 0, 0));
        }
        assert forall|i: int| 0 <= i < prefix.len() && #[trigger] prefix[i] == '/' implies 0 < i
            && i + 1 < prefix.len() && prefix[i + 1] != '/' by {
            if i == 0 {
                assert(is_component(prefix, 0, 0));
            }
            if i + 1 == prefix.len() || prefix[i + 1] == '/' {
                assert(is_component(prefix, i + 1, i + 1));
            }
        }
        assert forall|i: int| !#[trigger] is_parent_component(prefix, i) by {
            if is_parent_component(prefix, i) {
                assert(is_component(prefix, i, i + 2));
                assert(prefix.subrange(i, i + 2) =~= seq!['.', '.']);
            }
        }
    }
}

/// A create succeeds when the object was created now, and when reading it back shows the same
/// content, however the create ended. It is a conflict when reading back shows other content. In
/// every other case it is a failure of the object store, which can be repeated.
pub proof fn lemma_create_is_settled(
    object_seq: u64,
    bytes: Seq<u8>,
    put: PutOutcome,
    read_back: ReadBack,
)
    ensures
        ({
            let result = create_result(object_seq, bytes, put, read_back);
            &&& result is Ok <==> put is Created || (read_back matches ReadBack::Found(found)
                && found@ == bytes)
            &&& !(put is Created) && (read_back matches ReadBack::Found(found) && found@ != bytes)
                ==> result == Err::<(), Error>(Error::WalObjectConflict { object_seq })
            &&& !(put is Created) && !(read_back is Found) ==> (result matches Err(error)
                && error is WalObjectStore)
            &&& (put matches PutOutcome::Failed { cause } && !(read_back is Found))
                ==> (result matches Err(Error::WalObjectStore { cause: told, object_seq: seq, .. })
                && told == put->Failed_cause && seq == object_seq)
        }),
{
}

/// An append is handed to the actor exactly when the store is neither stopped nor failed, there are
/// entries, however many, and every one can be appended. It changes nothing otherwise.
pub proof fn lemma_append_is_handed_on(
    store: StoreModel,
    entries: Seq<Entry>,
    waiter: u64,
    now: u64,
)
    ensures
        store.takes_append(entries) <==> {
            &&& !store.actor.stopped
            &&& store.actor.terminal is None
            &&& entries.len() > 0
            &&& forall|i: int|
                0 <= i < entries.len() ==> (#[trigger] entries[i]).complete && selects(
                    entries[i].provider,
                    store.prefix,
                    entries[i].region_id,
                )
        },
        store.takes_append(entries) ==> store.after_append(entries, waiter, now) == (StoreModel {
            actor: store.actor.append(entries, waiter, now),
            ..store
        }),
        !store.takes_append(entries) ==> store.after_append(entries, waiter, now) == store,
{
    if store.takes_append(entries) {
        assert forall|i: int| 0 <= i < entries.len() implies (#[trigger] entries[i]).complete
            && selects(entries[i].provider, store.prefix, entries[i].region_id) by {
            assert(entry_fits(store.prefix, entries[i]));
        }
    }
}

/// A read goes on after a segment could not be had exactly when the object was collected meanwhile,
/// for whatever reason it failed, or when the segment does not decode and the store is set up to
/// skip such segments. Only the latter leaves a hole.
pub proof fn lemma_read_passes_over(store: StoreModel, object_seq: u64, error: Error)
    ensures
        !store.actor.catalog.objects.contains_key(object_seq) ==> store.passes_over(
            object_seq,
            error,
        ) && !store.leaves_hole(object_seq, error),
        store.actor.catalog.objects.contains_key(object_seq) ==> {
            let skips = error is InvalidWalObject && store.on_corrupted_segment
                == CorruptedSegmentAction::Skip;
            store.passes_over(object_seq, error) == skips && store.leaves_hole(object_seq, error)
                == skips
        },
{
}

/// The namespaces that are listed are those of the regions that a segment of an indexed object
/// belongs to, however few entries it has, each once and in the order of the regions.
pub proof fn lemma_namespaces_are_listed(
    catalog: CatalogModel,
    prefix: Seq<char>,
    providers: Seq<Provider>,
)
    requires
        lists_regions(catalog, prefix, providers),
    ensures
        forall|seq: u64, k: int|
            catalog.objects.contains_key(seq) && 0 <= k < catalog.objects[seq].len() ==> is_listed(
                prefix,
                providers,
                (#[trigger] catalog.objects[seq][k]).region_id,
            ),
        forall|i: int|
            0 <= i < providers.len() ==> ((#[trigger] providers[i]) matches Provider::ObjectStore(
                selected,
            ) && selected.prefix@ == prefix && has_segment(catalog, selected.region_id)),
{
    assert forall|seq: u64, k: int|
        catalog.objects.contains_key(seq) && 0 <= k
            < catalog.objects[seq].len() implies is_listed(
        prefix,
        providers,
        (#[trigger] catalog.objects[seq][k]).region_id,
    ) by {
        let region = catalog.objects[seq][k].region_id.0;
        assert(has_region(catalog.objects[seq], region));
        assert(has_entries(catalog, region));
        let i = choose|i: int|
            0 <= i < providers.len() && region_in(prefix, #[trigger] providers[i]) == Some(
                RegionId(region),
            );
        assert(selects(providers[i], prefix, catalog.objects[seq][k].region_id));
    }
    assert forall|i: int| 0 <= i < providers.len() implies ((
    #[trigger] providers[i]) matches Provider::ObjectStore(selected) && selected.prefix@ == prefix
        && has_segment(catalog, selected.region_id)) by {
        let region_id = region_in(prefix, providers[i])->0;
        assert(has_entries(catalog, region_id.0));
        let seq = choose|seq: u64| #[trigger]
            catalog.objects.contains_key(seq) && has_region(catalog.objects[seq], region_id.0);
        let footer = catalog.objects[seq];
        let k = choose|k: int|
            0 <= k < footer.len() && (#[trigger] footer[k]).region_id.0 == region_id.0;
        assert(catalog.objects[seq][k].region_id == region_id);
    }
}

/// One of the providers selects the prefix and the region.
pub open spec fn is_listed(
    prefix: Seq<char>,
    providers: Seq<Provider>,
    region_id: RegionId,
) -> bool {
    exists|i: int|
        0 <= i < providers.len() && #[trigger] selects(providers[i], prefix, region_id)
}

/// An indexed object has a segment of the region.
pub open spec fn has_segment(catalog: CatalogModel, region_id: RegionId) -> bool {
    exists|seq: u64, k: int|
        catalog.objects.contains_key(seq) && 0 <= k < catalog.objects[seq].len() && (
        #[trigger] catalog.objects[seq][k]).region_id == region_id
}

} // verus!
