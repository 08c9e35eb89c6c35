//! The log store: appends go to the actor, and reads are served from the object catalog.
use vstd::prelude::*;
use vstd::string::*;

use crate::actor::{action_models, opened, Action, Actor, ActorSettings};
use crate::actor_model::{find_seq, raise_watermark, AckMode, ActorModel};
use crate::batch::largest_id;
use crate::catalog::{has_region, lemma_overlap, CatalogModel};
use crate::config::{CorruptedSegmentAction, ObjectStoreWalConfig};
use crate::error::{error_text, Error, Failure, InvalidEntry};
use crate::format::{decode_segment, record_models, segment_in, FooterEntry, Record, RecordModel};
use crate::id::{EntryId, RegionId, OBJECT_SEQ_LIMIT};
use crate::logstore::{naive_entry, AppendBatchResponse, Entry, Provider, ProviderKind};
use crate::object::{object_path, path_of};
use crate::ordmap::{
    lemma_lists_keys, lemma_ordered_keys, lemma_ordered_keys_of_domain, lists_keys, ordered_keys,
    OrdMap,
};
use crate::recovery::Recovered;
use crate::text::push_text;

verus! {

/// An error of the log store.
#[allow(inconsistent_fields)]
#[derive(Debug, PartialEq, Eq)]
pub enum StoreError {
    /// An error of the request itself.
    Own(Error),
    /// An error that other requests receive too.
    Shared(Error),
    /// The provider is not one of an object store.
    InvalidProvider { expected: ProviderKind, actual: ProviderKind },
    /// The provider selects another prefix than the store's.
    MismatchedWalPrefix { expected: String, actual: String },
}

/// A segment a read skipped because it did not decode: the entries of one region in one object are
/// missing from every read of that region.
#[derive(Debug, PartialEq, Eq)]
pub struct WalHole {
    /// Key of the object that holds the segment.
    pub path: String,
    pub object_seq: u64,
    /// Entry id range the footer records for the segment.
    pub min_entry_id: EntryId,
    pub max_entry_id: EntryId,
}

impl Clone for WalHole {
    fn clone(&self) -> (copy: WalHole)
        ensures
            copy == *self,
    {
        WalHole {
            path: self.path.clone(),
            object_seq: self.object_seq,
            min_entry_id: self.min_entry_id,
            max_entry_id: self.max_entry_id,
        }
    }
}

/// What a hole says.
pub struct HoleModel {
    pub path: Seq<char>,
    pub object_seq: u64,
    pub min_entry_id: EntryId,
    pub max_entry_id: EntryId,
}

impl View for WalHole {
    type V = HoleModel;

    open spec fn view(&self) -> HoleModel {
        HoleModel {
            path: self.path@,
            object_seq: self.object_seq,
            min_entry_id: self.min_entry_id,
            max_entry_id: self.max_entry_id,
        }
    }
}

/// The region of a provider that selects the prefix.
pub open spec fn region_in(prefix: Seq<char>, provider: Provider) -> Option<RegionId> {
    match provider {
        Provider::ObjectStore(selected) => if selected.prefix@ == prefix {
            Some(selected.region_id)
        } else {
            None
        },
        Provider::Other(_) => None,
    }
}

/// The integer id of the region of a provider that selects the prefix.
pub open spec fn region_key(prefix: Seq<char>, provider: Provider) -> u64 {
    match region_in(prefix, provider) {
        Some(region_id) => region_id.0,
        None => 0,
    }
}

/// The error of a provider that does not select the prefix.
pub open spec fn provider_error(prefix: Seq<char>, provider: Provider, error: StoreError) -> bool {
    match provider {
        Provider::ObjectStore(selected) => {
            &&& selected.prefix@ != prefix
            &&& error matches StoreError::MismatchedWalPrefix { expected, actual }
            &&& expected@ == prefix
            &&& actual@ == selected.prefix@
        },
        Provider::Other(kind) => error == (StoreError::InvalidProvider {
            expected: ProviderKind::ObjectStore,
            actual: kind,
        }),
    }
}

/// Whether an entry can be appended under the prefix.
pub open spec fn entry_fits(prefix: Seq<char>, entry: Entry) -> bool {
    region_in(prefix, entry.provider) == Some(entry.region_id) && entry.complete
}

/// The error of an entry that cannot be appended under the prefix.
pub open spec fn entry_error(prefix: Seq<char>, entry: Entry, error: StoreError) -> bool {
    match region_in(prefix, entry.provider) {
        None => provider_error(prefix, entry.provider, error),
        Some(region_id) => if region_id != entry.region_id {
            error == StoreError::Own(
                Error::InvalidWalEntry {
                    region_id: entry.region_id,
                    reason: InvalidEntry::ProviderRegion { provider_region: region_id },
                },
            )
        } else {
            !entry.complete && error == StoreError::Own(
                Error::InvalidWalEntry { region_id, reason: InvalidEntry::Incomplete },
            )
        },
    }
}

/// How a failure of the actor reaches the caller.
pub open spec fn store_error(failure: Failure) -> StoreError {
    match failure {
        Failure::Own(error) => StoreError::Own(error),
        Failure::Shared(error) => StoreError::Shared(error),
    }
}

impl StoreError {
    /// The error that a failure of the actor is for the caller.
    pub fn from_failure(failure: Failure) -> (error: StoreError)
        ensures
            error == store_error(failure),
    {
        match failure {
            Failure::Own(error) => StoreError::Own(error),
            Failure::Shared(error) => StoreError::Shared(error),
        }
    }

    /// The sentence that describes the error.
    pub fn message(&self) -> (text: String)
        ensures
            text@ == store_error_text(*self),
    {
        let mut text = String::new();
        match self {
            StoreError::Own(error) => push_text(&mut text, error.message().as_str()),
            StoreError::Shared(error) => push_text(&mut text, error.message().as_str()),
            StoreError::InvalidProvider { .. } => push_text(
                &mut text,
                "the provider is not one of an object store",
            ),
            StoreError::MismatchedWalPrefix { expected, actual } => {
                push_text(&mut text, "mismatched WAL prefix, expected ");
                push_text(&mut text, expected.as_str());
                push_text(&mut text, ", actual ");
                push_text(&mut text, actual.as_str());
            },
        }
        assert(text@ =~= store_error_text(*self));
        text
    }
}

/// The sentence that describes an error.
pub open spec fn store_error_text(error: StoreError) -> Seq<char> {
    match error {
        StoreError::Own(own) => error_text(own),
        StoreError::Shared(shared) => error_text(shared),
        StoreError::InvalidProvider { .. } => "the provider is not one of an object store"@,
        StoreError::MismatchedWalPrefix { expected, actual } => "mismatched WAL prefix, expected "@
            + expected@ + ", actual "@ + actual@,
    }
}

/// The first id a read returns: the asked one, or the one after the watermark if that is larger.
pub open spec fn read_start(watermark: Option<EntryId>, entry_id: EntryId) -> EntryId {
    match watermark {
        None => entry_id,
        Some(obsolete) => if obsolete == u64::MAX {
            u64::MAX
        } else if entry_id <= obsolete {
            (obsolete + 1) as u64
        } else {
            entry_id
        },
    }
}

/// The segments a read goes through.
pub open spec fn read_segments(
    catalog: CatalogModel,
    watermark: Option<EntryId>,
    region: u64,
    entry_id: EntryId,
) -> Seq<(u64, FooterEntry)> {
    let start = read_start(watermark, entry_id);
    if catalog.max_ids.contains_key(region) && start <= catalog.max_ids[region] && watermark
        != Some(u64::MAX) {
        catalog.overlap(region, start, catalog.max_ids[region])
    } else {
        Seq::empty()
    }
}

/// What a read goes through.
#[derive(Debug)]
pub struct ReadPlan {
    pub region_id: RegionId,
    /// The first id the read returns.
    pub start_entry_id: EntryId,
    /// The objects that hold entries of the region, with the segment of each.
    pub objects: Vec<(u64, FooterEntry)>,
}

/// The records of a segment from the first id of a read on.
pub open spec fn from_id(records: Seq<RecordModel>, start: EntryId) -> Seq<RecordModel>
    decreases records.len(),
{
    if records.len() == 0 {
        Seq::empty()
    } else {
        let rest = from_id(records.drop_last(), start);
        if records.last().entry_id >= start {
            rest.push(records.last())
        } else {
            rest
        }
    }
}

/// What a read does after a segment could not be had.
#[derive(Clone, Copy, Debug, PartialEq, Eq, Structural)]
pub enum ReadDecision {
    /// Go on with the next object.
    Continue,
    /// Fail with the error.
    Fail(Error),
}

/// What to do with a segment that was fetched.
#[derive(Debug)]
pub enum FetchedSegment {
    Records(Vec<Record>),
    /// The segment did not decode: fetch it once more.
    FetchAgain,
}

/// The state of a log store.
pub struct StoreModel {
    pub prefix: Seq<char>,
    pub on_corrupted_segment: CorruptedSegmentAction,
    pub actor: ActorModel,
    /// The holes by region and object sequence.
    pub holes: Map<u64, Map<u64, HoleModel>>,
}

/// A log store that persists the entries of many regions as immutable objects under one prefix.
///
/// Appends are admitted into an open batch, which the actor seals when it reaches the size limit
/// or the flush interval elapses. In the durable mode an append is acknowledged once its object is
/// indexed; in the enqueued mode on admission. Reads fetch and decode only the segment of the
/// requested region from every object the catalog lists for it.
#[derive(Debug)]
pub struct ObjectStoreLogStore {
    prefix: String,
    on_corrupted_segment: CorruptedSegmentAction,
    actor: Actor,
    wal_holes: OrdMap<OrdMap<WalHole>>,
}

spec fn hole_models(holes: OrdMap<WalHole>) -> Map<u64, HoleModel> {
    holes@.map_values(|hole: WalHole| hole@)
}

impl View for ObjectStoreLogStore {
    type V = StoreModel;

    closed spec fn view(&self) -> StoreModel {
        StoreModel {
            prefix: self.prefix@,
            on_corrupted_segment: self.on_corrupted_segment,
            actor: self.actor@,
            holes: self.wal_holes@.map_values(|holes: OrdMap<WalHole>| hole_models(holes)),
        }
    }
}

impl StoreModel {
    /// The watermark of a region.
    pub open spec fn watermark(self, region: u64) -> Option<EntryId> {
        if self.actor.obsolete.contains_key(region) {
            Some(self.actor.obsolete[region])
        } else {
            None
        }
    }

    /// The largest durable id of a region, zero when it has none.
    pub open spec fn durable_id(self, region: u64) -> EntryId {
        largest_id(self.actor.catalog.max_ids, region)
    }

    /// The holes of a region.
    pub open spec fn holes_of(self, region: u64) -> Map<u64, HoleModel> {
        if self.holes.contains_key(region) {
            self.holes[region]
        } else {
            Map::empty()
        }
    }

    /// Whether an append is handed to the actor.
    pub open spec fn takes_append(self, entries: Seq<Entry>) -> bool {
        &&& !self.actor.stopped
        &&& self.actor.terminal is None
        &&& entries.len() > 0
        &&& all_fit(self.prefix, entries)
    }

    /// The store after an append.
    pub open spec fn after_append(self, entries: Seq<Entry>, waiter: u64, now: u64) -> StoreModel {
        if self.takes_append(entries) {
            self.with_actor(self.actor.append(entries, waiter, now))
        } else {
            self
        }
    }

    /// Whether a read passes over a segment that could not be had.
    pub open spec fn passes_over(self, object_seq: u64, error: Error) -> bool {
        ||| !self.actor.catalog.objects.contains_key(object_seq)
        ||| self.leaves_hole(object_seq, error)
    }

    /// Whether passing over a segment that could not be had leaves a hole.
    pub open spec fn leaves_hole(self, object_seq: u64, error: Error) -> bool {
        &&& self.actor.catalog.objects.contains_key(object_seq)
        &&& error is InvalidWalObject
        &&& self.on_corrupted_segment == CorruptedSegmentAction::Skip
    }

    /// The store after its actor took an event.
    pub open spec fn with_actor(self, actor: ActorModel) -> StoreModel {
        StoreModel { actor, ..self }
    }

    /// The store with a hole recorded, once per object.
    pub open spec fn with_hole(self, region: u64, hole: HoleModel) -> StoreModel {
        let holes = self.holes_of(region);
        StoreModel {
            holes: self.holes.insert(
                region,
                if holes.contains_key(hole.object_seq) {
                    holes
                } else {
                    holes.insert(hole.object_seq, hole)
                },
            ),
            ..self
        }
    }
}

impl ObjectStoreLogStore {
    /// The parts are well-formed.
    pub closed spec fn wf(&self) -> bool {
        &&& self.actor.wf()
        &&& self.wal_holes.wf()
        &&& forall|region: u64| #[trigger]
            self.wal_holes@.contains_key(region) ==> self.wal_holes@[region].wf()
    }

    /// Builds the store on what recovery found under the prefix of `config`.
    pub fn open(
        config: &ObjectStoreWalConfig,
        writer_instance: u128,
        recovered: Recovered,
    ) -> (result: Result<ObjectStoreLogStore, Error>)
        requires
            recovered.catalog.wf(),
            recovered.next_object_seq < OBJECT_SEQ_LIMIT,
        ensures
            match config.invalid_setting() {
                Some(reason) => result matches Err(error) && error
                    == (Error::InvalidWalObjectStore { reason }),
                None => result matches Ok(store) && store.wf() && store@ == (StoreModel {
                    prefix: config.prefix@,
                    on_corrupted_segment: config.on_corrupted_segment,
                    actor: opened(
                        ActorSettings {
                            ack_mode: config.ack_mode,
                            max_batch_bytes: config.max_batch_bytes as usize,
                            max_unpersisted_bytes: config.max_unpersisted_bytes as usize,
                            max_unpersisted_age: config.max_unpersisted_age,
                            writer_instance,
                        },
                        recovered.catalog@,
                        recovered.next_object_seq,
                        recovered.durable_entry_ids@,
                    ),
                    holes: Map::empty(),
                }),
            },
    {
        let settings = match config.actor_settings(writer_instance) {
            Ok(settings) => settings,
            Err(error) => {
                return Err(error);
            },
        };
        let actor = Actor::new(
            settings,
            recovered.catalog,
            recovered.next_object_seq,
            recovered.durable_entry_ids,
        );
        let store = ObjectStoreLogStore {
            prefix: config.prefix.clone(),
            on_corrupted_segment: config.on_corrupted_segment,
            actor,
            wal_holes: OrdMap::new(),
        };
        assert(store@.holes =~= Map::empty());
        Ok(store)
    }

    /// Returns the region of `provider`, which must select this store's prefix.
    pub fn region_of(&self, provider: &Provider) -> (result: Result<RegionId, StoreError>)
        ensures
            match region_in(self@.prefix, *provider) {
                Some(region_id) => result matches Ok(found) && found == region_id,
                None => result matches Err(error) && provider_error(self@.prefix, *provider, error),
            },
    {
        match provider {
            Provider::ObjectStore(selected) => {
                if selected.prefix.eq(&self.prefix) {
                    Ok(selected.region_id)
                } else {
                    Err(
                        StoreError::MismatchedWalPrefix {
                            expected: self.prefix.clone(),
                            actual: selected.prefix.clone(),
                        },
                    )
                }
            },
            Provider::Other(kind) => Err(
                StoreError::InvalidProvider {
                    expected: ProviderKind::ObjectStore,
                    actual: *kind,
                },
            ),
        }
    }

    /// Fails with the terminal error, if there is one.
    pub fn check_terminal(&self) -> (result: Result<(), StoreError>)
        ensures
            match self@.actor.health() {
                Ok(()) => result == Ok::<(), StoreError>(()),
                Err(failure) => result matches Err(error) && error == store_error(failure),
            },
    {
        match self.actor.check_terminal() {
            Ok(()) => Ok(()),
            Err(failure) => Err(StoreError::from_failure(failure)),
        }
    }

    /// Checks that the store is healthy and that `provider` selects this store's prefix and
    /// `region_id`.
    pub fn check_region(&self, provider: &Provider, region_id: RegionId) -> (result: Result<
        (),
        StoreError,
    >)
        ensures
            region_check(self@, *provider, region_id, result),
    {
        if let Err(error) = self.check_terminal() {
            return Err(error);
        }
        match self.region_of(provider) {
            Err(error) => Err(error),
            Ok(provider_region) => {
                if provider_region == region_id {
                    Ok(())
                } else {
                    Err(
                        StoreError::Own(
                            Error::InvalidWalEntry {
                                region_id,
                                reason: InvalidEntry::ProviderRegion { provider_region },
                            },
                        ),
                    )
                }
            },
        }
    }

    /// Returns the largest entry id of the provider's region whose object is durable and indexed,
    /// or zero for a region without such entries.
    pub fn durable_entry_id(&self, provider: &Provider) -> (result: Result<EntryId, StoreError>)
        requires
            self.wf(),
        ensures
            match self@.actor.health() {
                Err(failure) => result matches Err(error) && error == store_error(failure),
                Ok(()) => match region_in(self@.prefix, *provider) {
                    Some(region_id) => result matches Ok(id) && id == self@.durable_id(
                        region_id.0,
                    ),
                    None => result matches Err(error) && provider_error(
                        self@.prefix,
                        *provider,
                        error,
                    ),
                },
            },
    {
        if let Err(error) = self.check_terminal() {
            return Err(error);
        }
        match self.region_of(provider) {
            Ok(region_id) => Ok(self.actor.durable_entry_id_of(region_id)),
            Err(error) => Err(error),
        }
    }

    /// Returns the largest durable entry id of the provider's region, or zero for a region without
    /// entries.
    pub fn latest_entry_id(&self, provider: &Provider) -> (result: Result<EntryId, StoreError>)
        requires
            self.wf(),
        ensures
            match self@.actor.health() {
                Err(failure) => result matches Err(error) && error == store_error(failure),
                Ok(()) => match region_in(self@.prefix, *provider) {
                    Some(region_id) => result matches Ok(id) && id == self@.durable_id(
                        region_id.0,
                    ),
                    None => result matches Err(error) && provider_error(
                        self@.prefix,
                        *provider,
                        error,
                    ),
                },
            },
    {
        self.durable_entry_id(provider)
    }
}

/// What becomes of an append.
#[derive(Debug)]
pub enum AppendOutcome {
    /// The append is answered at once.
    Done(AppendBatchResponse),
    /// The waiter is answered by an action.
    Waiting,
}

impl ObjectStoreLogStore {
    /// Returns the segments of the provider's region that reads of this store skipped because they
    /// did not decode, ordered by object sequence. Holes are kept in memory only.
    pub fn wal_holes(&self, provider: &Provider) -> (result: Result<Vec<WalHole>, StoreError>)
        requires
            self.wf(),
        ensures
            match region_in(self@.prefix, *provider) {
                None => result matches Err(error) && provider_error(self@.prefix, *provider, error),
                Some(region_id) => result matches Ok(holes) && holes@.len() == ordered_keys(
                    self@.holes_of(region_id.0),
                ).len() && forall|i: int|
                    0 <= i < holes@.len() ==> (#[trigger] holes@[i])@ == self@.holes_of(
                        region_id.0,
                    )[ordered_keys(self@.holes_of(region_id.0))[i]],
            },
    {
        let region_id = match self.region_of(provider) {
            Ok(region_id) => region_id,
            Err(error) => {
                return Err(error);
            },
        };
        let mut found: Vec<WalHole> = Vec::new();
        let ghost model = self@.holes_of(region_id.0);
        match self.wal_holes.get(region_id.as_u64()) {
            None => {
                proof {
                    lemma_ordered_keys(model, Seq::empty());
                }
            },
            Some(holes) => {
                proof {
                    assert(model == hole_models(*holes));
                    holes.lemma_key_seq();
                    assert(model.dom() =~= holes@.dom());
                    lemma_ordered_keys_of_domain(holes@, model, holes.key_seq());
                }
                let n: usize = holes.len();
                let mut i: usize = 0;
                while i < n
                    invariant
                        holes.wf(),
                        model == hole_models(*holes),
                        holes.key_seq() == ordered_keys(model),
                        n == holes.key_seq().len(),
                        i <= n,
                        found@.len() == i,
                        forall|k: int|
                            0 <= k < i ==> (#[trigger] found@[k])@ == model[ordered_keys(
                                model,
                            )[k]],
                    decreases n - i,
                {
                    let hole = holes.value_at(i).clone();
                    assert(hole@ == model[ordered_keys(model)[i as int]]);
                    found.push(hole);
                    i = i + 1;
                }
            },
        }
        Ok(found)
    }

    /// Returns the key of the object `object_seq` and the bytes that the segment of the provider's
    /// region occupies in it, or `None` when the object holds no segment of the region. The end of
    /// a segment can always be counted: see [`crate::durability::lemma_indexed_segments_fit`].
    pub fn segment_location(&self, provider: &Provider, object_seq: u64) -> (result: Result<
        Option<(String, u64, u64)>,
        StoreError,
    >)
        requires
            self.wf(),
            region_in(self@.prefix, *provider) matches Some(region_id) ==> segment_fits(
                self@.actor.catalog.region(region_id.0),
                object_seq,
            ),
        ensures
            match region_in(self@.prefix, *provider) {
                None => result matches Err(error) && provider_error(self@.prefix, *provider, error),
                Some(region_id) => {
                    let segments = self@.actor.catalog.region(region_id.0);
                    if segments.contains_key(object_seq) {
                        result matches Ok(Some((path, start, end))) && path@ == path_of(
                            self@.prefix,
                            object_seq,
                        ) && start == segments[object_seq].segment_offset && end
                            == segments[object_seq].segment_offset
                            + segments[object_seq].segment_len
                    } else {
                        result matches Ok(None)
                    }
                },
            },
    {
        let region_id = match self.region_of(provider) {
            Ok(region_id) => region_id,
            Err(error) => {
                return Err(error);
            },
        };
        let catalog = self.actor.catalog();
        let ghost model = catalog@;
        proof {
            catalog.lemma_wf_is_valid();
            lemma_overlap(model, region_id.0, 0, u64::MAX);
        }
        let objects = match catalog.objects_for_entry_range(region_id, 0, u64::MAX) {
            Ok(objects) => objects,
            Err(error) => {
                return Err(StoreError::Own(error));
            },
        };
        let n: usize = objects.len();
        let mut i: usize = 0;
        while i < n
            invariant
                self.wf(),
                model == self@.actor.catalog,
                n == objects@.len(),
                i <= n,
                region_in(self@.prefix, *provider) == Some(region_id),
                segment_fits(model.region(region_id.0), object_seq),
                forall|k: int|
                    0 <= k < objects@.len() ==> model.region(region_id.0).contains_key(
                        (#[trigger] objects@[k]).0,
                    ) && objects@[k].1 == model.region(region_id.0)[objects@[k].0],
                forall|k: int| 0 <= k < i ==> (#[trigger] objects@[k]).0 != object_seq,
            decreases n - i,
        {
            let (seq, entry) = objects[i];
            if seq == object_seq {
                let start: u64 = entry.segment_offset;
                assert(model.region(region_id.0).contains_key(objects@[i as int].0));
                let end: u64 = start + entry.segment_len;
                return Ok(Some((object_path(&self.prefix, object_seq), start, end)));
            }
            i = i + 1;
        }
        proof {
            let segments = model.region(region_id.0);
            if segments.contains_key(object_seq) {
                assert(objects@.contains((object_seq, segments[object_seq])));
                let k = objects@.index_of((object_seq, segments[object_seq]));
                assert(objects@[k].0 == object_seq);
            }
        }
        Ok(None)
    }

    /// Checks that every entry can be appended: its provider selects the store's prefix and the
    /// entry's region, and no part of the entry is missing.
    pub fn check_entries(&self, entries: &Vec<Entry>) -> (result: Result<(), StoreError>)
        ensures
            entries_check(self@, entries@, result),
    {
        let n: usize = entries.len();
        let mut i: usize = 0;
        while i < n
            invariant
                n == entries@.len(),
                i <= n,
                forall|k: int| 0 <= k < i ==> entry_fits(self@.prefix, #[trigger] entries@[k]),
            decreases n - i,
        {
            let entry = &entries[i];
            let region_id = match self.region_of(&entry.provider) {
                Ok(region_id) => region_id,
                Err(error) => {
                    assert(entry_error(self@.prefix, entries@[i as int], error));
                    return Err(error);
                },
            };
            if region_id != entry.region_id {
                let error = StoreError::Own(
                    Error::InvalidWalEntry {
                        region_id: entry.region_id,
                        reason: InvalidEntry::ProviderRegion { provider_region: region_id },
                    },
                );
                assert(entry_error(self@.prefix, entries@[i as int], error));
                return Err(error);
            }
            if !entry.complete {
                let error = StoreError::Own(
                    Error::InvalidWalEntry { region_id, reason: InvalidEntry::Incomplete },
                );
                assert(entry_error(self@.prefix, entries@[i as int], error));
                return Err(error);
            }
            i = i + 1;
        }
        Ok(())
    }

    /// Takes an append. It fails at once when the store is stopped or failed or an entry cannot be
    /// appended; an append without entries succeeds at once; any other is handed to the actor,
    /// which answers `waiter`.
    pub fn append_batch(&mut self, entries: Vec<Entry>, waiter: u64, now: u64) -> (result: Result<
        AppendOutcome,
        StoreError,
    >)
        requires
            old(self).wf(),
        ensures
            final(self).wf(),
            final(self)@ == old(self)@.after_append(entries@, waiter, now),
            old(self)@.takes_append(entries@) <==> result matches Ok(AppendOutcome::Waiting),
            if old(self)@.actor.stopped {
                result matches Err(error) && error == StoreError::Own(
                    Error::ObjectStoreWalStopped,
                ) && final(self)@ == old(self)@
            } else if old(self)@.actor.terminal is Some {
                result matches Err(error) && error == StoreError::Shared(
                    old(self)@.actor.terminal->0,
                ) && final(self)@ == old(self)@
            } else if entries@.len() == 0 {
                result matches Ok(AppendOutcome::Done(response)) && response.last_entry_ids@
                    == Map::<u64, EntryId>::empty() && final(self)@ == old(self)@
            } else if all_fit(old(self)@.prefix, entries@) {
                result matches Ok(AppendOutcome::Waiting) && final(self)@ == old(self)@.with_actor(
                    old(self)@.actor.append(entries@, waiter, now),
                )
            } else {
                result matches Err(error) && entries_check(old(self)@, entries@, Err(error))
                    && final(self)@ == old(self)@
            },
    {
        if self.actor.is_stopped() {
            return Err(StoreError::Own(Error::ObjectStoreWalStopped));
        }
        if let Err(error) = self.check_terminal() {
            return Err(error);
        }
        if entries.len() == 0 {
            return Ok(AppendOutcome::Done(AppendBatchResponse::default()));
        }
        if let Err(error) = self.check_entries(&entries) {
            return Err(error);
        }
        self.actor.handle_append(entries, waiter, now);
        Ok(AppendOutcome::Waiting)
    }

    /// Finds what a read of the provider's region from `entry_id` on goes through, skipping the
    /// ids that the region has obsoleted.
    pub fn plan_read(&self, provider: &Provider, entry_id: EntryId) -> (result: Result<
        ReadPlan,
        StoreError,
    >)
        requires
            self.wf(),
        ensures
            match self@.actor.health() {
                Err(failure) => result matches Err(error) && error == store_error(failure),
                Ok(()) => match region_in(self@.prefix, *provider) {
                    None => result matches Err(error) && provider_error(
                        self@.prefix,
                        *provider,
                        error,
                    ),
                    Some(region_id) => result matches Ok(plan) && plan.region_id == region_id
                        && plan.start_entry_id == read_start(
                        self@.watermark(region_id.0),
                        entry_id,
                    ) && plan.objects@ == read_segments(
                        self@.actor.catalog,
                        self@.watermark(region_id.0),
                        region_id.0,
                        entry_id,
                    ),
                },
            },
    {
        if let Err(error) = self.check_terminal() {
            return Err(error);
        }
        let region_id = match self.region_of(provider) {
            Ok(region_id) => region_id,
            Err(error) => {
                return Err(error);
            },
        };
        let watermark = self.actor.watermark(region_id);
        let start_entry_id: u64 = match watermark {
            None => entry_id,
            Some(obsolete) => {
                let above: u64 = obsolete.saturating_add(1);
                if entry_id < above {
                    above
                } else {
                    entry_id
                }
            },
        };
        let hidden: bool = match watermark {
            Some(obsolete) => obsolete == u64::MAX,
            None => false,
        };
        let catalog = self.actor.catalog();
        let objects: Vec<(u64, FooterEntry)> = match catalog.region_max_entry_id(region_id) {
            Some(max_entry_id) => {
                if start_entry_id <= max_entry_id && !hidden {
                    match catalog.objects_for_entry_range(
                        region_id,
                        start_entry_id,
                        max_entry_id,
                    ) {
                        Ok(objects) => objects,
                        Err(error) => {
                            return Err(StoreError::Own(error));
                        },
                    }
                } else {
                    Vec::new()
                }
            },
            None => Vec::new(),
        };
        assert(objects@ =~= read_segments(
            self@.actor.catalog,
            self@.watermark(region_id.0),
            region_id.0,
            entry_id,
        ));
        Ok(ReadPlan { region_id, start_entry_id, objects })
    }

    /// Decides what a read does after the segment `entry` of the object `object_seq` could not be
    /// had. `error` is why, and the delete of the object, if there was one, has settled.
    ///
    /// An object that was collected after the read listed it is passed over: every entry it held
    /// is at or below a watermark. A segment that does not decode is recorded as a hole and passed
    /// over when the store is set up to skip it. Anything else fails the read.
    pub fn on_read_error(&mut self, object_seq: u64, entry: &FooterEntry, error: Error) -> (decision:
        ReadDecision)
        requires
            old(self).wf(),
        ensures
            final(self).wf(),
            old(self)@.passes_over(object_seq, error) <==> decision == ReadDecision::Continue,
            final(self)@ == (if old(self)@.leaves_hole(object_seq, error) {
                old(self)@.with_hole(
                    entry.region_id.0,
                    hole_of(old(self)@.prefix, object_seq, *entry),
                )
            } else {
                old(self)@
            }),
            if !old(self)@.actor.catalog.objects.contains_key(object_seq) {
                decision == ReadDecision::Continue && final(self)@ == old(self)@
            } else if error is InvalidWalObject && old(self)@.on_corrupted_segment
                == CorruptedSegmentAction::Skip {
                decision == ReadDecision::Continue && final(self)@ == old(self)@.with_hole(
                    entry.region_id.0,
                    hole_of(old(self)@.prefix, object_seq, *entry),
                )
            } else {
                decision == ReadDecision::Fail(error) && final(self)@ == old(self)@
            },
    {
        if self.is_collected(object_seq) {
            return ReadDecision::Continue;
        }
        if let Error::InvalidWalObject { .. } = error {
            if self.on_corrupted_segment == CorruptedSegmentAction::Skip {
                self.skip_segment(object_seq, entry);
                return ReadDecision::Continue;
            }
        }
        ReadDecision::Fail(error)
    }

    /// Returns whether an object that was listed earlier is no longer indexed.
    pub fn is_collected(&self, object_seq: u64) -> (collected: bool)
        requires
            self.wf(),
        ensures
            collected <==> !self@.actor.catalog.objects.contains_key(object_seq),
    {
        !self.actor.catalog().contains_object(object_seq)
    }

    /// Returns whether the delete of the object is in flight.
    pub fn is_deleting(&self, object_seq: u64) -> (deleting: bool)
        requires
            self.wf(),
        ensures
            deleting <==> self@.actor.deleting.contains(object_seq),
    {
        self.actor.is_deleting(object_seq)
    }

    /// Records the segment `entry` describes in the object `object_seq` as a hole of its region,
    /// once per object.
    fn skip_segment(&mut self, object_seq: u64, entry: &FooterEntry)
        requires
            old(self).wf(),
        ensures
            final(self).wf(),
            final(self)@ == old(self)@.with_hole(
                entry.region_id.0,
                hole_of(old(self)@.prefix, object_seq, *entry),
            ),
    {
        let region: u64 = entry.region_id.as_u64();
        let hole = WalHole {
            path: object_path(&self.prefix, object_seq),
            object_seq,
            min_entry_id: entry.min_entry_id,
            max_entry_id: entry.max_entry_id,
        };
        let ghost before = self@;
        let ghost model = hole_of(before.prefix, object_seq, *entry);
        assert(hole@ == model);
        let mut holes: OrdMap<WalHole> = match self.wal_holes.remove(region) {
            Some(holes) => holes,
            None => OrdMap::new(),
        };
        let ghost held = holes@;
        assert(hole_models(holes) =~= before.holes_of(region));
        if !holes.contains_key(object_seq) {
            holes.insert(object_seq, hole);
            assert(hole_models(holes) =~= before.holes_of(region).insert(object_seq, model));
        }
        self.wal_holes.insert(region, holes);
        assert(self@.holes =~= before.with_hole(region, model).holes);
    }

    /// Lists the providers of the regions that have entries under the prefix, ordered by region.
    pub fn list_namespaces(&self) -> (result: Result<Vec<Provider>, StoreError>)
        requires
            self.wf(),
        ensures
            match self@.actor.health() {
                Err(failure) => result matches Err(error) && error == store_error(failure),
                Ok(()) => result matches Ok(providers) && lists_regions(
                    self@.actor.catalog,
                    self@.prefix,
                    providers@,
                ),
            },
    {
        if let Err(error) = self.check_terminal() {
            return Err(error);
        }
        let catalog = self.actor.catalog();
        let ghost model = catalog@;
        let objects = catalog.objects_in_order();
        proof {
            catalog.lemma_wf_is_valid();
            lemma_lists_keys(model.objects);
        }
        let ghost keys = ordered_keys(model.objects);
        let mut regions: OrdMap<()> = OrdMap::new();
        let n: usize = objects.len();
        let mut i: usize = 0;
        while i < n
            invariant
                regions.wf(),
                keys == ordered_keys(model.objects),
                lists_keys(model.objects, keys),
                n == objects@.len(),
                n == keys.len(),
                i <= n,
                forall|k: int|
                    0 <= k < objects@.len() ==> (#[trigger] objects@[k]).0 == keys[k]
                        && objects@[k].1@ == model.objects[objects@[k].0],
                forall|region: u64| #[trigger]
                    regions@.contains_key(region) <==> exists|k: int|
                        0 <= k < i && has_region(model.objects[#[trigger] keys[k]], region),
            decreases n - i,
        {
            let footer = objects[i].1;
            let ghost seq = keys[i as int];
            let ghost before = regions@;
            assert(objects@[i as int].0 == seq);
            let m: usize = footer.len();
            let mut j: usize = 0;
            while j < m
                invariant
                    regions.wf(),
                    footer@ == model.objects[seq],
                    m == footer@.len(),
                    j <= m,
                    forall|region: u64| #[trigger]
                        regions@.contains_key(region) <==> (before.contains_key(region)
                            || has_region(footer@.take(j as int), region)),
                decreases m - j,
            {
                let region: u64 = footer[j].region_id.as_u64();
                regions.insert(region, ());
                proof {
                    let taken = footer@.take(j as int);
                    let next = footer@.take(j + 1);
                    assert forall|r: u64| #[trigger]
                        has_region(next, r) <==> (has_region(taken, r) || r == region) by {
                        if has_region(next, r) {
                            let k = choose|k: int|
                                0 <= k < next.len() && (#[trigger] next[k]).region_id.0 == r;
                            if k < j {
                                assert(taken[k].region_id.0 == r);
                            }
                        }
                        if has_region(taken, r) {
                            let k = choose|k: int|
                                0 <= k < taken.len() && (#[trigger] taken[k]).region_id.0 == r;
                            assert(next[k].region_id.0 == r);
                        }
                        assert(next[j as int].region_id.0 == region);
                    }
                }
                j = j + 1;
            }
            proof {
                assert(footer@.take(m as int) =~= footer@);
                assert forall|region: u64| #[trigger]
                    regions@.contains_key(region) <==> exists|k: int|
                        0 <= k < i + 1 && has_region(
                            model.objects[#[trigger] keys[k]],
                            region,
                        ) by {
                    if before.contains_key(region) {
                        let k = choose|k: int|
                            0 <= k < i && has_region(model.objects[#[trigger] keys[k]], region);
                        assert(has_region(model.objects[keys[k]], region));
                    }
                    if has_region(footer@, region) {
                        assert(has_region(model.objects[keys[i as int]], region));
                    }
                    if exists|k: int|
                        0 <= k < i + 1 && has_region(
                            model.objects[#[trigger] keys[k]],
                            region,
                        ) {
                        let k = choose|k: int|
                            0 <= k < i + 1 && has_region(
                                model.objects[#[trigger] keys[k]],
                                region,
                            );
                        if k < i {
                            assert(before.contains_key(region));
                        }
                    }
                }
            }
            i = i + 1;
        }
        proof {
            regions.lemma_key_seq();
        }
        let ghost order = regions.key_seq();
        let mut providers: Vec<Provider> = Vec::new();
        let count: usize = regions.len();
        let mut at: usize = 0;
        while at < count
            invariant
                regions.wf(),
                order == regions.key_seq(),
                count == order.len(),
                at <= count,
                providers@.len() == at,
                forall|k: int|
                    0 <= k < at ==> region_in(self@.prefix, #[trigger] providers@[k]) == Some(
                        RegionId(order[k]),
                    ),
            decreases count - at,
        {
            let region: u64 = regions.key_at(at);
            providers.push(
                Provider::object_store_provider(RegionId(region), self.prefix.clone()),
            );
            at = at + 1;
        }
        proof {
            assert forall|region: u64| has_entries(model, region) implies exists|k: int|
                0 <= k < providers@.len() && region_in(
                    self@.prefix,
                    #[trigger] providers@[k],
                ) == Some(RegionId(region)) by {
                let seq = choose|seq: u64| #[trigger]
                    model.objects.contains_key(seq) && has_region(model.objects[seq], region);
                assert(keys.contains(seq));
                let k = keys.index_of(seq);
                assert(has_region(model.objects[keys[k]], region));
                assert(regions@.contains_key(region));
                assert(order.contains(region));
                let at = order.index_of(region);
                assert(order[at] == region);
                assert(region_in(self@.prefix, providers@[at]) == Some(RegionId(region)));
            }
            assert forall|k: int| 0 <= k < providers@.len() implies (region_in(
                self@.prefix,
                #[trigger] providers@[k],
            ) matches Some(region_id) && has_entries(model, region_id.0)) by {
                let region = order[k];
                assert(regions@.contains_key(region));
                let m = choose|m: int|
                    0 <= m < n && has_region(model.objects[#[trigger] keys[m]], region);
                assert(keys.contains(keys[m]));
                assert(model.objects.contains_key(keys[m]));
            }
        }
        Ok(providers)
    }

    /// Moves the obsolete watermark of the region up to `entry_id`. In the enqueued mode the
    /// watermark never passes the durable entry id: an entry that is not durable yet is replayed
    /// after a crash, and hiding it would skip it. The actor answers `waiter`.
    pub fn obsolete(
        &mut self,
        provider: &Provider,
        region_id: RegionId,
        entry_id: EntryId,
        waiter: u64,
    ) -> (result: Result<(), StoreError>)
        requires
            old(self).wf(),
        ensures
            final(self).wf(),
            region_check(old(self)@, *provider, region_id, result),
            result is Err ==> final(self)@ == old(self)@,
            result is Ok ==> final(self)@ == old(self)@.with_actor(
                old(self)@.actor.obsolete_upto(
                    region_id,
                    entry_id,
                    watermark_for(old(self)@, region_id.0, entry_id),
                    waiter,
                ),
            ),
    {
        if let Err(error) = self.check_region(provider, region_id) {
            return Err(error);
        }
        let watermark: u64 = self.clamp_watermark(region_id, entry_id);
        self.actor.handle_obsolete(region_id, entry_id, watermark, waiter);
        Ok(())
    }

    /// The watermark that obsoleting through `entry_id` asks for.
    fn clamp_watermark(&self, region_id: RegionId, entry_id: EntryId) -> (watermark: EntryId)
        requires
            self.wf(),
        ensures
            watermark == watermark_for(self@, region_id.0, entry_id),
    {
        match self.actor.ack_mode() {
            AckMode::Durable => entry_id,
            AckMode::Enqueued => {
                let durable: u64 = self.actor.durable_entry_id_of(region_id);
                if entry_id < durable {
                    entry_id
                } else {
                    durable
                }
            },
        }
    }

    /// Records the watermark of an obsolete request that the actor exited on: nothing is assigned
    /// an id any more, so the watermark alone is consistent.
    pub fn obsolete_after_exit(&mut self, region_id: RegionId, entry_id: EntryId)
        requires
            old(self).wf(),
        ensures
            final(self).wf(),
            final(self)@ == old(self)@.with_actor(
                (ActorModel {
                    obsolete: raise_watermark(
                        old(self)@.actor.obsolete,
                        region_id.0,
                        watermark_for(old(self)@, region_id.0, entry_id),
                    ),
                    ..old(self)@.actor
                }),
            ),
    {
        let watermark: u64 = self.clamp_watermark(region_id, entry_id);
        self.actor.record_obsolete(region_id, watermark);
    }

    /// Hides every entry of the region.
    pub fn obsolete_all(&mut self, provider: &Provider, region_id: RegionId) -> (result: Result<
        (),
        StoreError,
    >)
        requires
            old(self).wf(),
        ensures
            final(self).wf(),
            region_check(old(self)@, *provider, region_id, result),
            result is Err ==> final(self)@ == old(self)@,
            result is Ok ==> final(self)@ == old(self)@.with_actor(
                (ActorModel {
                    obsolete: raise_watermark(
                        old(self)@.actor.obsolete,
                        region_id.0,
                        u64::MAX,
                    ),
                    ..old(self)@.actor
                }),
            ),
    {
        if let Err(error) = self.check_region(provider, region_id) {
            return Err(error);
        }
        self.actor.record_obsolete(region_id, u64::MAX);
        Ok(())
    }

    /// Makes an entry of the provider's region.
    pub fn entry(
        &self,
        data: Vec<u8>,
        entry_id: EntryId,
        region_id: RegionId,
        provider: &Provider,
    ) -> (result: Result<Entry, StoreError>)
        ensures
            match result {
                Err(error) => region_check(self@, *provider, region_id, Err(error)),
                Ok(entry) => region_check(self@, *provider, region_id, Ok(())) && entry
                    == naive_entry(*provider, region_id, entry_id, data),
            },
    {
        if let Err(error) = self.check_region(provider, region_id) {
            return Err(error);
        }
        Ok(Entry::naive(provider.clone(), region_id, entry_id, data))
    }

    /// Waits until every entry of the provider's region with an id at or below `entry_id` is
    /// durable and indexed. Returns true when it is already; otherwise the actor answers `waiter`.
    pub fn wait_durable(&mut self, provider: &Provider, entry_id: EntryId, waiter: u64) -> (result:
        Result<bool, StoreError>)
        requires
            old(self).wf(),
        ensures
            final(self).wf(),
            match old(self)@.actor.health() {
                Err(failure) => result matches Err(error) && error == store_error(failure)
                    && final(self)@ == old(self)@,
                Ok(()) => match region_in(old(self)@.prefix, *provider) {
                    None => result matches Err(error) && provider_error(
                        old(self)@.prefix,
                        *provider,
                        error,
                    ) && final(self)@ == old(self)@,
                    Some(region_id) => if entry_id <= old(self)@.durable_id(region_id.0) {
                        result matches Ok(durable) && durable && final(self)@ == old(self)@
                    } else {
                        result matches Ok(durable) && !durable && final(self)@
                            == old(self)@.with_actor(
                            old(self)@.actor.wait_durable(region_id, entry_id, waiter),
                        )
                    },
                },
            },
    {
        if let Err(error) = self.check_terminal() {
            return Err(error);
        }
        let region_id = match self.region_of(provider) {
            Ok(region_id) => region_id,
            Err(error) => {
                return Err(error);
            },
        };
        if entry_id <= self.actor.durable_entry_id_of(region_id) {
            return Ok(true);
        }
        self.actor.handle_wait_durable(region_id, entry_id, waiter);
        Ok(false)
    }

    /// Checks that the store is healthy and serves the namespace, which needs no creation and no
    /// deletion.
    pub fn check_namespace(&self, ns: &Provider) -> (result: Result<(), StoreError>)
        ensures
            match self@.actor.health() {
                Err(failure) => result matches Err(error) && error == store_error(failure),
                Ok(()) => match region_in(self@.prefix, *ns) {
                    None => result matches Err(error) && provider_error(self@.prefix, *ns, error),
                    Some(_) => result is Ok,
                },
            },
    {
        if let Err(error) = self.check_terminal() {
            return Err(error);
        }
        match self.region_of(ns) {
            Ok(_) => Ok(()),
            Err(error) => Err(error),
        }
    }

    /// Sets the stopped flag without telling the actor to exit.
    pub fn begin_stop(&mut self)
        requires
            old(self).wf(),
        ensures
            final(self).wf(),
            final(self)@ == old(self)@.with_actor(
                (ActorModel { stopped: true, ..old(self)@.actor }),
            ),
    {
        self.actor.begin_stop();
    }

    /// Stops the store. Creates in flight run to completion and acknowledge their entries if they
    /// succeed; in the enqueued mode the remaining backlog is uploaded first. The actor answers
    /// `waiter` once nothing is in flight.
    pub fn stop(&mut self, waiter: u64)
        requires
            old(self).wf(),
        ensures
            final(self).wf(),
            final(self)@ == old(self)@.with_actor(
                (ActorModel { stopped: true, ..old(self)@.actor }).begin_exit(waiter),
            ),
    {
        self.actor.begin_stop();
        self.actor.handle_stop(waiter);
    }

    /// Seals the open batch regardless of its size and age; the actor answers `waiter` once its
    /// object is durable and indexed, or with the error that failed it.
    pub fn seal_open_batch(&mut self, waiter: u64) -> (result: Result<(), StoreError>)
        requires
            old(self).wf(),
        ensures
            final(self).wf(),
            old(self)@.actor.stopped ==> (result matches Err(error) && error == StoreError::Own(
                Error::ObjectStoreWalStopped,
            ) && final(self)@ == old(self)@),
            !old(self)@.actor.stopped ==> result is Ok && final(self)@ == old(self)@.with_actor(
                old(self)@.actor.seal_requested(waiter),
            ),
    {
        if self.actor.is_stopped() {
            return Err(StoreError::Own(Error::ObjectStoreWalStopped));
        }
        self.actor.handle_seal(waiter);
        Ok(())
    }

    /// The flush interval elapsed.
    pub fn tick(&mut self)
        requires
            old(self).wf(),
        ensures
            final(self).wf(),
            final(self)@ == old(self)@.with_actor(old(self)@.actor.tick()),
    {
        self.actor.tick();
    }

    /// Takes the outcome of a create.
    pub fn on_create_completed(&mut self, object_seq: u64, result: Result<(), Error>, now: u64)
        requires
            old(self).wf(),
        ensures
            final(self).wf(),
            final(self)@ == old(self)@.with_actor(
                old(self)@.actor.create_completed(object_seq, result, now),
            ),
    {
        self.actor.on_create_completed(object_seq, result, now);
    }

    /// Takes the outcome of a delete.
    pub fn on_delete_completed(&mut self, object_seq: u64, deleted: bool)
        requires
            old(self).wf(),
        ensures
            final(self).wf(),
            final(self)@ == old(self)@.with_actor(
                old(self)@.actor.delete_completed(object_seq, deleted),
            ),
    {
        self.actor.on_delete_completed(object_seq, deleted);
    }

    /// Answers the callers of stop once nothing is in flight. Returns true when the actor is done.
    pub fn finish_stop(&mut self) -> (done: bool)
        requires
            old(self).wf(),
        ensures
            final(self).wf(),
            done <==> old(self)@.actor.may_exit(),
            final(self)@ == old(self)@.with_actor(old(self)@.actor.finish_exit()),
    {
        self.actor.finish_stop()
    }

    /// Takes what is to be done.
    pub fn take_actions(&mut self) -> (actions: Vec<Action>)
        requires
            old(self).wf(),
        ensures
            final(self).wf(),
            action_models(actions@) == old(self)@.actor.actions,
            final(self)@ == old(self)@.with_actor(
                (ActorModel { actions: Seq::empty(), ..old(self)@.actor }),
            ),
    {
        self.actor.take_actions()
    }

    /// The bytes of the object that is to be created under the sequence.
    pub fn object_bytes(&self, object_seq: u64) -> (bytes: Option<&Vec<u8>>)
        ensures
            match find_seq(self@.actor.sealed, object_seq, 0) {
                Some(i) => bytes matches Some(found) && found@ == self@.actor.sealed[i].bytes,
                None => bytes is None,
            },
    {
        self.actor.object_bytes(object_seq)
    }

    /// The key of the object under the store's prefix.
    pub fn path(&self, object_seq: u64) -> (path: String)
        ensures
            path@ == path_of(self@.prefix, object_seq),
    {
        object_path(&self.prefix, object_seq)
    }
}

/// Whether the end of the segment that a region has in the object can be counted.
pub open spec fn segment_fits(segments: Map<u64, FooterEntry>, object_seq: u64) -> bool {
    segments.contains_key(object_seq) ==> segments[object_seq].segment_offset
        + segments[object_seq].segment_len <= u64::MAX
}

/// Whether an object holds entries of the region.
pub open spec fn has_entries(catalog: CatalogModel, region: u64) -> bool {
    exists|seq: u64| #[trigger]
        catalog.objects.contains_key(seq) && has_region(catalog.objects[seq], region)
}

/// The providers are those of the regions that have entries, each once, ordered by region.
pub open spec fn lists_regions(
    catalog: CatalogModel,
    prefix: Seq<char>,
    providers: Seq<Provider>,
) -> bool {
    &&& forall|k: int|
        0 <= k < providers.len() ==> (region_in(prefix, #[trigger] providers[k]) matches Some(
            region_id,
        ) && has_entries(catalog, region_id.0))
    &&& forall|i: int, j: int|
        0 <= i < j < providers.len() ==> region_key(prefix, #[trigger] providers[i]) < region_key(
            prefix,
            #[trigger] providers[j],
        )
    &&& forall|region: u64|
        has_entries(catalog, region) ==> exists|k: int|
            0 <= k < providers.len() && region_in(prefix, #[trigger] providers[k]) == Some(
                RegionId(region),
            )
}

/// The hole that skipping a segment leaves.
pub open spec fn hole_of(prefix: Seq<char>, object_seq: u64, entry: FooterEntry) -> HoleModel {
    HoleModel {
        path: path_of(prefix, object_seq),
        object_seq,
        min_entry_id: entry.min_entry_id,
        max_entry_id: entry.max_entry_id,
    }
}

/// The watermark that obsoleting through `entry_id` asks for: in the enqueued mode no more than
/// what is durable.
pub open spec fn watermark_for(store: StoreModel, region: u64, entry_id: EntryId) -> EntryId {
    if store.actor.ack_mode == AckMode::Enqueued && store.durable_id(region) <= entry_id {
        store.durable_id(region)
    } else {
        entry_id
    }
}

/// Whether every entry can be appended under the prefix.
pub open spec fn all_fit(prefix: Seq<char>, entries: Seq<Entry>) -> bool {
    forall|k: int| 0 <= k < entries.len() ==> entry_fits(prefix, #[trigger] entries[k])
}

/// What a check of entries gives: nothing, or the error of the first that cannot be appended.
pub open spec fn entries_check(
    store: StoreModel,
    entries: Seq<Entry>,
    result: Result<(), StoreError>,
) -> bool {
    match result {
        Ok(()) => all_fit(store.prefix, entries),
        Err(error) => exists|i: int|
            0 <= i < entries.len() && #[trigger] entry_error(store.prefix, entries[i], error)
                && forall|k: int| 0 <= k < i ==> entry_fits(store.prefix, #[trigger] entries[k]),
    }
}

/// Decodes a segment that was fetched for the first time. One that does not decode is fetched once
/// more, since the download rather than the object may be damaged.
pub fn take_segment(bytes: &[u8], entry: &FooterEntry) -> (fetched: FetchedSegment)
    ensures
        match segment_in(bytes@, *entry) {
            Ok(records) => fetched matches FetchedSegment::Records(decoded) && record_models(
                decoded@,
            ) == records,
            Err(_) => fetched is FetchAgain,
        },
{
    match decode_segment(bytes, entry) {
        Ok(records) => FetchedSegment::Records(records),
        Err(_) => FetchedSegment::FetchAgain,
    }
}

/// Decodes a segment that was fetched for the second time.
pub fn take_segment_again(object_seq: u64, bytes: &[u8], entry: &FooterEntry) -> (result: Result<
    Vec<Record>,
    Error,
>)
    ensures
        match segment_in(bytes@, *entry) {
            Ok(records) => result matches Ok(decoded) && record_models(decoded@) == records,
            Err(reason) => result matches Err(error) && error == (Error::InvalidWalObject {
                object_seq,
                reason,
            }),
        },
{
    match decode_segment(bytes, entry) {
        Ok(records) => Ok(records),
        Err(reason) => Err(Error::InvalidWalObject { object_seq, reason }),
    }
}

/// Whether the entry of the region is the one that the record holds.
pub open spec fn entry_says(
    entry: Entry,
    record: RecordModel,
    provider: Provider,
    region_id: RegionId,
) -> bool {
    &&& entry.provider == provider
    &&& entry.region_id == region_id
    &&& entry.entry_id == record.entry_id
    &&& entry.data@ == record.payload
    &&& entry.complete
    &&& entry.estimated_size == entry.data@.len()
}

/// Makes the entries that a read returns of the records of a segment: those with ids from
/// `start_entry_id` on, in order.
pub fn entries_from(
    records: Vec<Record>,
    provider: &Provider,
    region_id: RegionId,
    start_entry_id: EntryId,
) -> (entries: Vec<Entry>)
    ensures
        entries@.len() == from_id(record_models(records@), start_entry_id).len(),
        forall|i: int|
            0 <= i < entries@.len() ==> entry_says(
                #[trigger] entries@[i],
                from_id(record_models(records@), start_entry_id)[i],
                *provider,
                region_id,
            ),
{
    let ghost given = records@;
    let ghost models = record_models(given);
    let mut entries: Vec<Entry> = Vec::new();
    assert(models.take(0) =~= Seq::empty());
    for record in it: records
        invariant
            it.seq() == given,
            models == record_models(given),
            entries@.len() == from_id(models.take(it.index() as int), start_entry_id).len(),
            forall|i: int|
                0 <= i < entries@.len() ==> entry_says(
                    #[trigger] entries@[i],
                    from_id(models.take(it.index() as int), start_entry_id)[i],
                    *provider,
                    region_id,
                ),
    {
        let ghost i = it.index() as int;
        proof {
            assert(models.take(i + 1).drop_last() =~= models.take(i));
            assert(models[i] == record@);
        }
        if record.entry_id >= start_entry_id {
            entries.push(
                Entry::naive(provider.clone(), region_id, record.entry_id, record.payload),
            );
        }
    }
    assert(models.take(models.len() as int) =~= models);
    entries
}

/// What a check of a provider against a region gives: the terminal error, the error of the
/// provider, the error of another region, or nothing.
pub open spec fn region_check(
    store: StoreModel,
    provider: Provider,
    region_id: RegionId,
    result: Result<(), StoreError>,
) -> bool {
    match store.actor.health() {
        Err(failure) => result matches Err(error) && error == store_error(failure),
        Ok(()) => match region_in(store.prefix, provider) {
            None => result matches Err(error) && provider_error(store.prefix, provider, error),
            Some(provider_region) => if provider_region == region_id {
                result is Ok
            } else {
                result matches Err(error) && error == StoreError::Own(
                    Error::InvalidWalEntry {
                        region_id,
                        reason: InvalidEntry::ProviderRegion { provider_region },
                    },
                )
            },
        },
    }
}

} // verus!
