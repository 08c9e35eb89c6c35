//! Removing the files of a region that are no longer needed.
use vstd::prelude::*;

use crate::id::RegionId;

verus! {

/// The kinds of indexes a file can have.
#[derive(Clone, Copy, Debug, PartialEq, Eq, Structural)]
pub enum IndexType {
    InvertedIndex,
    FulltextIndex,
    BloomFilterIndex,
}

/// What is known of a file.
#[derive(Debug)]
pub struct FileMeta {
    pub region_id: RegionId,
    pub file_id: u128,
    /// The indexes that were built for the file.
    pub available_indexes: Vec<IndexType>,
}

impl FileMeta {
    /// Whether an index was built for the file.
    pub fn exists_index(&self) -> (exists: bool)
        ensures
            exists <==> self.available_indexes@.len() > 0,
    {
        self.available_indexes.len() > 0
    }
}

/// Identifies a file of a region.
#[derive(Clone, Copy, Debug, PartialEq, Eq, Structural)]
pub struct RegionFileId {
    pub region_id: RegionId,
    pub file_id: u128,
}

/// The file that `meta` describes.
pub open spec fn file_of(meta: FileMeta) -> RegionFileId {
    RegionFileId { region_id: meta.region_id, file_id: meta.file_id }
}

/// Request to remove a file.
#[derive(Debug)]
pub struct PurgeRequest {
    /// File meta.
    pub file_meta: FileMeta,
}

/// Something to be done in order to remove a file. A step that fails is reported and does not keep
/// the next ones from being done.
#[derive(Clone, Copy, Debug, PartialEq, Eq, Structural)]
pub enum PurgeStep {
    /// Remove the metadata of the file from the cache.
    RemoveMetaFromCache(RegionFileId),
    /// Delete the file, and its index file with it.
    DeleteSst(RegionFileId),
    /// Remove the index file from the write cache.
    RemoveIndexFromWriteCache(RegionFileId),
    /// Remove the file from the write cache.
    RemoveSstFromWriteCache(RegionFileId),
    /// Purge the index content that is staged for the file.
    PurgeStager(RegionFileId),
}

/// What is to be done in order to remove a file.
#[derive(Debug)]
pub struct PurgePlan {
    /// Done at once.
    pub immediate: Vec<PurgeStep>,
    /// Done by one background job, in order. When the job cannot be scheduled, none of it is done.
    pub scheduled: Vec<PurgeStep>,
}

/// The caches that a purger has to keep clean.
#[derive(Clone, Copy, Debug, PartialEq, Eq, Structural)]
pub struct CacheManager {
    /// Whether files are also cached on their way to the object store.
    pub has_write_cache: bool,
}

/// A worker to delete files in background.
pub trait FilePurger {
    /// The steps done at once.
    spec fn immediate(&self, meta: FileMeta) -> Seq<PurgeStep>;

    /// The steps done by the background job.
    spec fn scheduled(&self, meta: FileMeta) -> Seq<PurgeStep>;

    /// Takes a purge request and returns what is to be done.
    fn send_request(&self, request: PurgeRequest) -> (plan: PurgePlan)
        ensures
            plan.immediate@ == self.immediate(request.file_meta),
            plan.scheduled@ == self.scheduled(request.file_meta),
    ;
}

/// A purger that does nothing, for reading files outside of the region.
#[derive(Debug)]
pub struct NoopFilePurger;

impl FilePurger for NoopFilePurger {
    open spec fn immediate(&self, meta: FileMeta) -> Seq<PurgeStep> {
        Seq::empty()
    }

    open spec fn scheduled(&self, meta: FileMeta) -> Seq<PurgeStep> {
        Seq::empty()
    }

    fn send_request(&self, _request: PurgeRequest) -> (plan: PurgePlan) {
        PurgePlan { immediate: Vec::new(), scheduled: Vec::new() }
    }
}

/// Purger that purges files of the current region.
#[derive(Debug)]
pub struct LocalFilePurger {
    cache_manager: Option<CacheManager>,
}

impl LocalFilePurger {
    /// The caches that the purger keeps clean.
    pub closed spec fn caches(&self) -> Option<CacheManager> {
        self.cache_manager
    }

    /// Creates a new purger.
    pub fn new(cache_manager: Option<CacheManager>) -> (purger: LocalFilePurger)
        ensures
            purger.caches() == cache_manager,
    {
        LocalFilePurger { cache_manager }
    }
}

/// The steps that take a file out of the write cache, if there is one.
pub open spec fn write_cache_steps(caches: Option<CacheManager>, meta: FileMeta) -> Seq<
    PurgeStep,
> {
    if caches matches Some(manager) && manager.has_write_cache {
        if meta.available_indexes@.len() > 0 {
            seq![
                PurgeStep::RemoveIndexFromWriteCache(file_of(meta)),
                PurgeStep::RemoveSstFromWriteCache(file_of(meta)),
            ]
        } else {
            seq![PurgeStep::RemoveSstFromWriteCache(file_of(meta))]
        }
    } else {
        Seq::empty()
    }
}

impl FilePurger for LocalFilePurger {
    open spec fn immediate(&self, meta: FileMeta) -> Seq<PurgeStep> {
        if self.caches() is Some {
            seq![PurgeStep::RemoveMetaFromCache(file_of(meta))]
        } else {
            Seq::empty()
        }
    }

    open spec fn scheduled(&self, meta: FileMeta) -> Seq<PurgeStep> {
        seq![PurgeStep::DeleteSst(file_of(meta))] + write_cache_steps(self.caches(), meta) + seq![
            PurgeStep::PurgeStager(file_of(meta)),
        ]
    }

    fn send_request(&self, request: PurgeRequest) -> (plan: PurgePlan) {
        let meta = request.file_meta;
        let file = RegionFileId { region_id: meta.region_id, file_id: meta.file_id };
        let mut immediate: Vec<PurgeStep> = Vec::new();
        if self.cache_manager.is_some() {
            immediate.push(PurgeStep::RemoveMetaFromCache(file));
        }
        let mut scheduled: Vec<PurgeStep> = Vec::new();
        scheduled.push(PurgeStep::DeleteSst(file));
        if let Some(manager) = self.cache_manager {
            if manager.has_write_cache {
                if meta.exists_index() {
                    scheduled.push(PurgeStep::RemoveIndexFromWriteCache(file));
                }
                scheduled.push(PurgeStep::RemoveSstFromWriteCache(file));
            }
        }
        scheduled.push(PurgeStep::PurgeStager(file));
        assert(immediate@ =~= self.immediate(meta));
        assert(scheduled@ =~= self.scheduled(meta));
        PurgePlan { immediate, scheduled }
    }
}

/// The step is done for the file, whatever it does.
pub open spec fn concerns(step: PurgeStep, region_id: RegionId, file_id: u128) -> bool {
    let file = match step {
        PurgeStep::RemoveMetaFromCache(file) => file,
        PurgeStep::DeleteSst(file) => file,
        PurgeStep::RemoveIndexFromWriteCache(file) => file,
        PurgeStep::RemoveSstFromWriteCache(file) => file,
        PurgeStep::PurgeStager(file) => file,
    };
    file.region_id == region_id && file.file_id == file_id
}

/// The index of a file is removed from the write cache exactly when there is a write cache and the
/// file has at least one index, of whatever kind and however many, and that step comes before the
/// file itself leaves the write cache.
pub proof fn lemma_index_leaves_the_write_cache(purger: LocalFilePurger, meta: FileMeta)
    ensures
        (exists|i: int|
            0 <= i < purger.scheduled(meta).len() && (#[trigger] purger.scheduled(
                meta,
            )[i]) is RemoveIndexFromWriteCache) <==> (purger.caches() matches Some(manager)
            && manager.has_write_cache && meta.available_indexes@.len() > 0),
        forall|i: int, j: int|
            0 <= i < purger.scheduled(meta).len() && 0 <= j < purger.scheduled(meta).len() && (
            #[trigger] purger.scheduled(meta)[i]) is RemoveIndexFromWriteCache && (
            #[trigger] purger.scheduled(meta)[j]) is RemoveSstFromWriteCache ==> i < j,
{
    let plan = purger.scheduled(meta);
    if purger.caches() matches Some(manager) && manager.has_write_cache
        && meta.available_indexes@.len() > 0 {
        assert(plan[1] is RemoveIndexFromWriteCache);
    }
}

/// Purging a file deletes it first and purges its staged content last. The file leaves the write
/// cache exactly when there is one. Every step concerns the file, and none is done twice.
pub proof fn lemma_purge_is_complete(purger: LocalFilePurger, meta: FileMeta)
    ensures
        purger.scheduled(meta).len() >= 2,
        purger.scheduled(meta)[0] is DeleteSst,
        purger.scheduled(meta).last() is PurgeStager,
        (exists|i: int|
            0 <= i < purger.scheduled(meta).len() && (#[trigger] purger.scheduled(
                meta,
            )[i]) is RemoveSstFromWriteCache) <==> (purger.caches() matches Some(manager)
            && manager.has_write_cache),
        forall|i: int|
            0 <= i < purger.scheduled(meta).len() ==> concerns(
                #[trigger] purger.scheduled(meta)[i],
                meta.region_id,
                meta.file_id,
            ) && !(purger.scheduled(meta)[i] is RemoveMetaFromCache),
        forall|i: int, j: int|
            0 <= i < j < purger.scheduled(meta).len() ==> (#[trigger] purger.scheduled(meta)[i])
                != (#[trigger] purger.scheduled(meta)[j]),
{
    let plan = purger.scheduled(meta);
    if purger.caches() matches Some(manager) && manager.has_write_cache {
        assert(plan[plan.len() - 2] is RemoveSstFromWriteCache);
    }
}

/// The metadata of a file leaves the cache at once, before the background job, exactly when there
/// are caches, and nothing else is done at once.
pub proof fn lemma_meta_leaves_the_cache(purger: LocalFilePurger, meta: FileMeta)
    ensures
        purger.caches() is None ==> purger.immediate(meta).len() == 0,
        purger.caches() is Some ==> purger.immediate(meta).len() == 1 && purger.immediate(
            meta,
        )[0] is RemoveMetaFromCache && concerns(
            purger.immediate(meta)[0],
            meta.region_id,
            meta.file_id,
        ),
{
}

/// The purger for files outside of the region touches nothing.
pub proof fn lemma_noop_purges_nothing(purger: NoopFilePurger, meta: FileMeta)
    ensures
        purger.immediate(meta).len() == 0,
        purger.scheduled(meta).len() == 0,
{
}

} // verus!
