use std::collections::{BTreeMap, HashMap};

use greptime::actor::Action;
use greptime::actor_model::{AckMode, MAX_IN_FLIGHT_CREATES};
use greptime::catalog::ObjectCatalog;
use greptime::config::{CorruptedSegmentAction, ObjectStoreWalConfig};
use greptime::error::{Corruption, Error, Failure, InvalidEntry, InvalidSetting, StoreOperation};
use greptime::format::{
    decode_footer, decode_object, decode_trailer, encode_object, footer_range, FixedTrailer,
    FooterEntry, Header, Record, FOOTER_ENTRY_LEN, HEADER_LEN, TRAILER_LEN,
};
use greptime::id::{entry_id, EntryId, RegionId, OBJECT_SEQ_LIMIT, POSITION_LIMIT};
use greptime::logstore::{Entry, Provider, ProviderKind};
use greptime::object::{object_path, object_seq_of, settle_create, PutOutcome, ReadBack};
use greptime::recovery::{
    begin_footer, finish_footer, plan_fetch, recover, FetchPlan, FooterStep, FoundFooter,
    ListedObject, Recovered, RECOVERY_TAIL_WINDOW,
};
use greptime::store::{
    entries_from, take_segment, take_segment_again, AppendOutcome, FetchedSegment,
    ObjectStoreLogStore, ReadDecision, StoreError, WalHole,
};

const PREFIX: &str = "test/wal";
const SECOND: u64 = 1_000_000_000;

type Objects = BTreeMap<u64, Vec<u8>>;

fn config(flush_interval: u64, max_batch_bytes: u64) -> ObjectStoreWalConfig {
    ObjectStoreWalConfig {
        prefix: PREFIX.to_string(),
        flush_interval,
        max_batch_bytes,
        ..ObjectStoreWalConfig::default()
    }
}

/// The same batching as `config`, acknowledging appends on admission.
fn enqueued(config: ObjectStoreWalConfig) -> ObjectStoreWalConfig {
    ObjectStoreWalConfig {
        ack_mode: AckMode::Enqueued,
        ..config
    }
}

/// The same batching as `config`, handling a corrupted segment as `action` says.
fn on_corruption(
    action: CorruptedSegmentAction,
    config: ObjectStoreWalConfig,
) -> ObjectStoreWalConfig {
    ObjectStoreWalConfig {
        on_corrupted_segment: action,
        ..config
    }
}

/// Every append reaches the size limit, so it is persisted on its own.
fn eager() -> ObjectStoreWalConfig {
    config(3600 * SECOND, 1)
}

/// Nothing is persisted until a test seals the open batch.
fn manual() -> ObjectStoreWalConfig {
    config(3600 * SECOND, u64::MAX)
}

fn region(number: u32) -> RegionId {
    RegionId::new(1, number)
}

fn provider(region_id: RegionId) -> Provider {
    Provider::object_store_provider(region_id, PREFIX.to_string())
}

fn path(object_seq: u64) -> String {
    object_path(&PREFIX.to_string(), object_seq)
}

/// The id of the entry at `position` of its region in object `object_seq`.
fn id(object_seq: u64, position: u64) -> EntryId {
    entry_id(object_seq, position)
}

fn ids(pairs: &[(RegionId, EntryId)]) -> HashMap<u64, EntryId> {
    pairs
        .iter()
        .map(|(region_id, id)| (region_id.as_u64(), *id))
        .collect()
}

fn entries(expected: &[(EntryId, &str)]) -> Vec<(EntryId, Vec<u8>)> {
    expected
        .iter()
        .map(|(entry_id, data)| (*entry_id, data.as_bytes().to_vec()))
        .collect()
}

fn transient(operation: StoreOperation, object_seq: u64) -> Error {
    Error::WalObjectStore {
        operation,
        object_seq,
        cause: 1,
    }
}

const STOPPED: Failure = Failure::Own(Error::ObjectStoreWalStopped);

fn unwrap_shared(failure: Failure) -> Error {
    match failure {
        Failure::Shared(error) => error,
        Failure::Own(error) => panic!("expected a shared error, actual {error:?}"),
    }
}

fn unwrap_shared_store(error: StoreError) -> Error {
    match error {
        StoreError::Shared(error) => error,
        other => panic!("expected a shared error, actual {other:?}"),
    }
}

/// How a footer was fetched: the ranges of the object that were read.
type Reads = Vec<(u64, u64)>;

fn fetch_footer(
    object_seq: u64,
    bytes: &[u8],
    reads: &mut Reads,
) -> Result<Vec<FooterEntry>, Error> {
    let object = ListedObject {
        object_seq,
        size: bytes.len() as u64,
    };
    let plan = plan_fetch(&object)?;
    let step = match plan {
        FetchPlan::Whole { .. } => begin_footer(&object, plan, bytes, bytes)?,
        FetchPlan::Parts { object_len, window } => {
            reads.push((0, HEADER_LEN as u64));
            reads.push(((object_len - window) as u64, window as u64));
            begin_footer(&object, plan, &bytes[..HEADER_LEN], &bytes[object_len - window..])?
        }
    };
    match step {
        FooterStep::Footer(footer) => Ok(footer),
        FooterStep::Fetch { trailer, range } => {
            reads.push((range.start as u64, (range.end - range.start) as u64));
            finish_footer(&object, trailer, range, &bytes[range.start..range.end])
        }
    }
}

fn recover_objects(objects: &Objects) -> Result<Recovered, Error> {
    let mut found = Vec::new();
    // Whatever order the footers arrive in.
    for (object_seq, bytes) in objects.iter().rev() {
        let footer = fetch_footer(*object_seq, bytes, &mut Vec::new())?;
        found.push(FoundFooter {
            object_seq: *object_seq,
            footer,
        });
    }
    recover(found)
}

/// Rebuilds the catalog by decoding every object in full.
fn recover_by_decoding(objects: &Objects) -> Result<Recovered, Error> {
    let mut found = Vec::new();
    for (object_seq, bytes) in objects {
        let decoded = decode_object(bytes).map_err(|reason| Error::InvalidWalObject {
            object_seq: *object_seq,
            reason,
        })?;
        found.push(FoundFooter {
            object_seq: *object_seq,
            footer: decoded.footer,
        });
    }
    recover(found)
}

fn catalog_contents(catalog: &ObjectCatalog) -> Vec<(u64, Vec<FooterEntry>)> {
    catalog
        .objects_in_order()
        .iter()
        .map(|(object_seq, footer)| (*object_seq, footer.to_vec()))
        .collect()
}

fn try_open(objects: &Objects, config: &ObjectStoreWalConfig) -> Result<Sim, Error> {
    let store = ObjectStoreLogStore::open(config, 7, recover_objects(objects)?)?;
    Ok(Sim {
        store,
        objects: objects.clone(),
        creates: Vec::new(),
        delayed: 0,
        deletes: Vec::new(),
        answers: HashMap::new(),
        waiters: 0,
        now: 0,
        exited: false,
        fail_reads_of: None,
        damage_reads_of: None,
        damaged_reads: 0,
    })
}

fn open(objects: &Objects, config: &ObjectStoreWalConfig) -> Sim {
    try_open(objects, config).unwrap()
}

fn fresh(config: &ObjectStoreWalConfig) -> Sim {
    open(&Objects::new(), config)
}

/// A store with the objects it wrote, the requests in flight and the answers it gave.
struct Sim {
    store: ObjectStoreLogStore,
    objects: Objects,
    creates: Vec<u64>,
    delayed: usize,
    deletes: Vec<u64>,
    answers: HashMap<u64, Result<HashMap<u64, EntryId>, Failure>>,
    waiters: u64,
    now: u64,
    exited: bool,
    fail_reads_of: Option<u64>,
    damage_reads_of: Option<u64>,
    /// How many reads of the damaged object are left to damage.
    damaged_reads: usize,
}

impl Sim {
    fn waiter(&mut self) -> u64 {
        self.waiters += 1;
        self.waiters
    }

    /// Takes over what the store asks for.
    fn pump(&mut self) {
        loop {
            let actions = self.store.take_actions();
            if actions.is_empty() {
                break;
            }
            for action in actions {
                match action {
                    Action::AnswerAppend { waiter, result } => {
                        let result = result.map(|response| response.last_entry_ids);
                        assert!(self.answers.insert(waiter, result).is_none());
                    }
                    Action::Answer { waiter, result } => {
                        let result = result.map(|()| HashMap::new());
                        assert!(self.answers.insert(waiter, result).is_none());
                    }
                    Action::Create { object_seq, delayed } => {
                        self.delayed += delayed as usize;
                        self.creates.push(object_seq);
                    }
                    Action::Delete { object_seq } => self.deletes.push(object_seq),
                }
            }
            if !self.exited && self.store.finish_stop() {
                self.exited = true;
            }
        }
    }

    fn pump_stop(&mut self) {
        self.pump();
        if !self.exited && self.store.finish_stop() {
            self.exited = true;
        }
        self.pump();
    }

    fn put(&mut self, object_seq: u64) -> Result<(), Error> {
        let bytes = self.store.object_bytes(object_seq).unwrap().clone();
        let (put, read_back) = match self.objects.get(&object_seq) {
            Some(found) => (PutOutcome::Exists, ReadBack::Found(found.clone())),
            None => (PutOutcome::Created, ReadBack::Absent),
        };
        let result = settle_create(object_seq, &bytes, put, read_back);
        self.objects.entry(object_seq).or_insert(bytes);
        result
    }

    fn settle(&mut self, object_seq: u64, result: Result<(), Error>) {
        let at = self.creates.iter().position(|seq| *seq == object_seq).unwrap();
        self.creates.remove(at);
        self.store.on_create_completed(object_seq, result, self.now);
        self.pump_stop();
    }

    /// Lets the create of the object run.
    fn create(&mut self, object_seq: u64) {
        let result = self.put(object_seq);
        self.settle(object_seq, result);
    }

    /// Fails the create of the object before anything is written.
    fn fail_create(&mut self, object_seq: u64) {
        self.settle(object_seq, Err(transient(StoreOperation::Write, object_seq)));
    }

    /// Writes the object and reports its create as failed.
    fn fail_create_after_write(&mut self, object_seq: u64) {
        self.put(object_seq).unwrap();
        self.fail_create(object_seq);
    }

    fn delete(&mut self, object_seq: u64, deleted: bool) {
        let at = self.deletes.iter().position(|seq| *seq == object_seq).unwrap();
        self.deletes.remove(at);
        if deleted {
            self.objects.remove(&object_seq);
        }
        self.store.on_delete_completed(object_seq, deleted);
        self.pump_stop();
    }

    /// Lets everything in flight run.
    fn run(&mut self) {
        self.pump_stop();
        while let Some(object_seq) = self.creates.first().copied() {
            self.create(object_seq);
        }
        self.collect();
    }

    /// Lets the deletes in flight run.
    fn collect(&mut self) {
        while let Some(object_seq) = self.deletes.first().copied() {
            self.delete(object_seq, true);
        }
    }

    fn entry(&self, region_id: RegionId, data: &str) -> Entry {
        self.store
            .entry(data.as_bytes().to_vec(), 0, region_id, &provider(region_id))
            .unwrap()
    }

    /// Starts an append of entries, without letting a create run.
    fn start_batch(&mut self, entries: Vec<Entry>) -> u64 {
        let waiter = self.waiter();
        match self.store.append_batch(entries, waiter, self.now).unwrap() {
            AppendOutcome::Waiting => {}
            AppendOutcome::Done(response) => {
                self.answers.insert(waiter, Ok(response.last_entry_ids));
            }
        }
        self.pump();
        waiter
    }

    fn start(&mut self, region_id: RegionId, data: &str) -> u64 {
        let entries = vec![self.entry(region_id, data)];
        self.start_batch(entries)
    }

    /// Appends `count` single-entry batches.
    fn start_many(&mut self, region_id: RegionId, count: usize) -> Vec<u64> {
        (1..=count)
            .map(|index| self.start(region_id, &format!("a{index}")))
            .collect()
    }

    fn append_batch(&mut self, entries: Vec<Entry>) -> Result<HashMap<u64, EntryId>, Failure> {
        let waiter = self.start_batch(entries);
        self.run();
        self.answer(waiter)
    }

    fn append(
        &mut self,
        region_id: RegionId,
        data: &str,
    ) -> Result<HashMap<u64, EntryId>, Failure> {
        let entries = vec![self.entry(region_id, data)];
        self.append_batch(entries)
    }

    fn is_answered(&self, waiter: u64) -> bool {
        self.answers.contains_key(&waiter)
    }

    fn answer(&mut self, waiter: u64) -> Result<HashMap<u64, EntryId>, Failure> {
        self.answers.remove(&waiter).unwrap()
    }

    fn start_seal(&mut self) -> u64 {
        let waiter = self.waiter();
        self.store.seal_open_batch(waiter).unwrap();
        self.pump();
        waiter
    }

    fn seal(&mut self) {
        let waiter = self.start_seal();
        self.run();
        self.answer(waiter).unwrap();
    }

    fn start_obsolete(&mut self, region_id: RegionId, entry_id: EntryId) -> Result<(), Failure> {
        let waiter = self.waiter();
        self.store
            .obsolete(&provider(region_id), region_id, entry_id, waiter)
            .unwrap();
        self.pump();
        self.answer(waiter).map(|_| ())
    }

    fn obsolete_and_collect(&mut self, region_id: RegionId, entry_id: EntryId) {
        self.start_obsolete(region_id, entry_id).unwrap();
        self.collect();
    }

    fn start_stop(&mut self) -> u64 {
        let waiter = self.waiter();
        self.store.stop(waiter);
        self.pump_stop();
        waiter
    }

    fn stop(&mut self) -> Result<(), Failure> {
        let waiter = self.start_stop();
        self.run();
        self.answer(waiter).map(|_| ())
    }

    /// Stops a store that has exited already.
    fn stop_again(&mut self) -> Result<(), Failure> {
        assert!(self.exited);
        let waiter = self.waiter();
        self.store.stop(waiter);
        assert!(self.store.finish_stop());
        self.pump();
        self.answer(waiter).map(|_| ())
    }

    fn start_wait(&mut self, region_id: RegionId, entry_id: EntryId) -> u64 {
        let waiter = self.waiter();
        if self
            .store
            .wait_durable(&provider(region_id), entry_id, waiter)
            .unwrap()
        {
            self.answers.insert(waiter, Ok(HashMap::new()));
        }
        self.pump();
        waiter
    }

    fn get_range(&mut self, object_seq: u64, entry: &FooterEntry) -> Result<Vec<u8>, Error> {
        let failed = transient(StoreOperation::Read, object_seq);
        if self.fail_reads_of == Some(object_seq) {
            return Err(failed);
        }
        let object = self.objects.get(&object_seq).ok_or(failed)?;
        let start = entry.segment_offset as usize;
        let mut bytes = object[start..start + entry.segment_len as usize].to_vec();
        if self.damage_reads_of == Some(object_seq) && self.damaged_reads > 0 {
            self.damaged_reads -= 1;
            *bytes.last_mut().unwrap() ^= 1;
        }
        Ok(bytes)
    }

    fn fetch_segment(&mut self, object_seq: u64, entry: &FooterEntry) -> Result<Vec<Record>, Error> {
        let bytes = self.get_range(object_seq, entry)?;
        match take_segment(&bytes, entry) {
            FetchedSegment::Records(records) => Ok(records),
            FetchedSegment::FetchAgain => {
                let bytes = self.get_range(object_seq, entry)?;
                take_segment_again(object_seq, &bytes, entry)
            }
        }
    }

    fn finish_read(
        &mut self,
        region_id: RegionId,
        start: EntryId,
        objects: Vec<(u64, FooterEntry)>,
    ) -> Result<Vec<(EntryId, Vec<u8>)>, Error> {
        let mut read = Vec::new();
        for (object_seq, entry) in objects {
            match self.fetch_segment(object_seq, &entry) {
                Ok(records) => {
                    for entry in entries_from(records, &provider(region_id), region_id, start) {
                        assert_eq!(region_id, entry.region_id);
                        read.push((entry.entry_id, entry.data));
                    }
                }
                Err(error) => {
                    assert!(!self.store.is_deleting(object_seq));
                    match self.store.on_read_error(object_seq, &entry, error) {
                        ReadDecision::Continue => {}
                        ReadDecision::Fail(error) => return Err(error),
                    }
                }
            }
        }
        Ok(read)
    }

    fn try_read(
        &mut self,
        region_id: RegionId,
        start: EntryId,
    ) -> Result<Vec<(EntryId, Vec<u8>)>, Error> {
        let plan = self.store.plan_read(&provider(region_id), start).unwrap();
        assert_eq!(region_id, plan.region_id);
        self.finish_read(region_id, plan.start_entry_id, plan.objects)
    }

    fn read(&mut self, region_id: RegionId, start: EntryId) -> Vec<(EntryId, Vec<u8>)> {
        self.try_read(region_id, start).unwrap()
    }

    /// The watermark that reads of the region respect.
    fn watermark(&self, region_id: RegionId) -> Option<EntryId> {
        let plan = self.store.plan_read(&provider(region_id), 0).unwrap();
        plan.start_entry_id.checked_sub(1)
    }

    fn latest(&self, region_id: RegionId) -> EntryId {
        self.store.latest_entry_id(&provider(region_id)).unwrap()
    }

    fn object_seqs(&self) -> Vec<u64> {
        self.objects.keys().copied().collect()
    }

    fn holes(&self, region_id: RegionId) -> Vec<WalHole> {
        self.store.wal_holes(&provider(region_id)).unwrap()
    }
}

fn encoded(object_seq: u64, region_id: RegionId, entry_ids: &[EntryId]) -> Vec<u8> {
    let records = entry_ids
        .iter()
        .map(|entry_id| Record {
            region_id,
            entry_id: *entry_id,
            payload: format!("e{entry_id}").into_bytes(),
        })
        .collect::<Vec<_>>();
    let header = Header {
        object_seq,
        writer_instance: 0,
    };
    encode_object(header, &records).unwrap().bytes
}

#[test]
fn test_store_batches_regions_into_shared_objects() {
    let mut sim = fresh(&manual());
    let region_one = region(1);
    let region_two = region(2);

    let first_entries = vec![sim.entry(region_one, "a1"), sim.entry(region_two, "b1")];
    let first = sim.start_batch(first_entries);
    let second_entries = vec![sim.entry(region_two, "b2"), sim.entry(region_one, "a2")];
    let second = sim.start_batch(second_entries);
    assert!(!sim.is_answered(first));
    assert_eq!(0, sim.latest(region_one));

    sim.seal();
    assert_eq!(Ok(ids(&[(region_one, 1), (region_two, 1)])), sim.answer(first));
    assert_eq!(Ok(ids(&[(region_one, 2), (region_two, 2)])), sim.answer(second));

    assert_eq!(vec![0], sim.object_seqs());
    assert_eq!(entries(&[(1, "a1"), (2, "a2")]), sim.read(region_one, 0));
    assert_eq!(entries(&[(1, "b1"), (2, "b2")]), sim.read(region_two, 0));
    assert_eq!(entries(&[(2, "b2")]), sim.read(region_two, 2));
    assert_eq!(2, sim.latest(region_one));
    assert_eq!(2, sim.latest(region_two));
    assert_eq!(0, sim.latest(region(3)));
    assert_eq!(
        vec![provider(region_one), provider(region_two)],
        sim.store.list_namespaces().unwrap()
    );
}

#[test]
fn test_store_recovers_catalog_after_restart() {
    let region_one = region(1);
    let region_two = region(2);

    let mut sim = fresh(&eager());
    sim.append(region_one, "a1").unwrap();
    let batch = vec![sim.entry(region_two, "b1"), sim.entry(region_one, "a2")];
    sim.append_batch(batch).unwrap();
    sim.append(region_one, "a3").unwrap();
    let expected_one = sim.read(region_one, 1);
    let expected_two = sim.read(region_two, 1);
    assert_eq!(
        entries(&[(id(0, 1), "a1"), (id(1, 1), "a2"), (id(2, 1), "a3")]),
        expected_one
    );
    assert_eq!(entries(&[(id(1, 1), "b1")]), expected_two);
    sim.stop().unwrap();

    let mut sim = open(&sim.objects, &eager());
    assert_eq!(expected_one, sim.read(region_one, 1));
    assert_eq!(expected_two, sim.read(region_two, 1));
    assert_eq!(id(2, 1), sim.latest(region_one));
    assert_eq!(id(1, 1), sim.latest(region_two));

    assert_eq!(Ok(ids(&[(region_two, id(3, 1))])), sim.append(region_two, "b2"));
    assert_eq!(vec![0, 1, 2, 3], sim.object_seqs());
    assert_eq!(
        entries(&[(id(1, 1), "b1"), (id(3, 1), "b2")]),
        sim.read(region_two, 1)
    );
}

#[test]
fn test_store_accepts_identical_retry_after_reported_failure() {
    let mut sim = fresh(&eager());
    let region_id = region(1);

    let first = sim.start(region_id, "a1");
    sim.fail_create_after_write(0);
    let error = unwrap_shared(sim.answer(first).unwrap_err());
    assert!(matches!(error, Error::WalObjectStore { .. }), "unexpected error: {error:?}");
    assert_eq!(vec![0], sim.object_seqs());
    assert_eq!(0, sim.latest(region_id));

    assert_eq!(Ok(ids(&[(region_id, 1)])), sim.append(region_id, "a1"));
    assert_eq!(vec![0], sim.object_seqs());
    assert_eq!(1, sim.latest(region_id));

    sim.append(region_id, "a2").unwrap();
    assert_eq!(vec![0, 1], sim.object_seqs());
    assert_eq!(
        entries(&[(1, "a1"), (id(1, 1), "a2")]),
        sim.read(region_id, 1)
    );
}

#[test]
fn test_store_fails_closed_on_conflicting_object() {
    let mut sim = fresh(&eager());
    let region_id = region(1);
    sim.objects.insert(0, b"foreign".to_vec());

    let retry = sim.entry(region_id, "a1");
    let conflict = Error::WalObjectConflict { object_seq: 0 };
    let failure = sim.append(region_id, "a1").unwrap_err();
    assert_eq!(conflict, unwrap_shared(failure));
    let error = sim.store.append_batch(vec![retry], 99, 0).unwrap_err();
    assert_eq!(conflict, unwrap_shared_store(error));
    assert!(sim.store.latest_entry_id(&provider(region_id)).is_err());
    assert_eq!(vec![0], sim.object_seqs());

    let error = try_open(&sim.objects, &eager()).map(|_| ()).unwrap_err();
    assert!(
        matches!(error, Error::InvalidWalObject { object_seq: 0, .. }),
        "unexpected error: {error:?}"
    );
}

#[test]
fn test_store_poisoned_by_conflict_rejects_every_operation() {
    let mut sim = fresh(&eager());
    let region_id = region(1);
    sim.append(region_id, "a1").unwrap();
    assert_eq!(entries(&[(1, "a1")]), sim.read(region_id, 1));

    sim.objects.insert(1, b"foreign".to_vec());
    sim.append(region_id, "a2").unwrap_err();

    let provider = provider(region_id);
    let errors = vec![
        sim.store.check_namespace(&provider).unwrap_err(),
        sim.store.list_namespaces().unwrap_err(),
        sim.store.entry(Vec::new(), 0, region_id, &provider).unwrap_err(),
        sim.store.obsolete(&provider, region_id, 1, 90).unwrap_err(),
        sim.store.obsolete_all(&provider, region_id).unwrap_err(),
        sim.store.plan_read(&provider, 1).unwrap_err(),
        sim.store.latest_entry_id(&provider).unwrap_err(),
        sim.store.durable_entry_id(&provider).unwrap_err(),
        sim.store.wait_durable(&provider, 1, 91).unwrap_err(),
        sim.store.append_batch(Vec::new(), 92, 0).unwrap_err(),
        sim.store.check_terminal().unwrap_err(),
    ];
    for error in errors {
        assert_eq!(
            Error::WalObjectConflict { object_seq: 1 },
            unwrap_shared_store(error)
        );
    }
    sim.stop().unwrap();
}

#[test]
fn test_store_recovery_rejects_corrupted_object() {
    let mut sim = fresh(&eager());
    sim.append(region(1), "a1").unwrap();
    sim.stop().unwrap();

    let bytes = sim.objects.get_mut(&0).unwrap();
    let middle = bytes.len() / 2;
    bytes[middle] ^= 1;

    let error = try_open(&sim.objects, &eager()).map(|_| ()).unwrap_err();
    assert!(
        matches!(error, Error::InvalidWalObject { object_seq: 0, .. }),
        "unexpected error: {error:?}"
    );
}

#[test]
fn test_store_keeps_sequence_after_transient_failure() {
    let mut sim = fresh(&eager());
    let region_id = region(1);

    let first = sim.start(region_id, "a1");
    sim.fail_create(0);
    assert_eq!(
        transient(StoreOperation::Write, 0),
        unwrap_shared(sim.answer(first).unwrap_err())
    );
    assert!(sim.object_seqs().is_empty());
    assert_eq!(0, sim.latest(region_id));

    assert_eq!(Ok(ids(&[(region_id, 1)])), sim.append(region_id, "a1"));
    assert_eq!(vec![0], sim.object_seqs());
    assert_eq!(entries(&[(1, "a1")]), sim.read(region_id, 1));
}

#[test]
fn test_store_rejects_foreign_providers() {
    let mut sim = fresh(&manual());
    let region_id = region(1);
    let other_prefix = Provider::object_store_provider(region_id, "other/prefix".to_string());
    let raft_engine = Provider::Other(ProviderKind::RaftEngine);

    for foreign in [&other_prefix, &raft_engine] {
        let entry = Entry::naive(foreign.clone(), region_id, 0, b"a1".to_vec());
        let errors = vec![
            sim.store.append_batch(vec![entry], 1, 0).unwrap_err(),
            sim.store.plan_read(foreign, 0).unwrap_err(),
            sim.store.latest_entry_id(foreign).unwrap_err(),
            sim.store.entry(Vec::new(), 0, region_id, foreign).unwrap_err(),
            sim.store.obsolete(foreign, region_id, 1, 1).unwrap_err(),
            sim.store.wal_holes(foreign).unwrap_err(),
            sim.store.check_namespace(foreign).unwrap_err(),
        ];
        for error in errors {
            if foreign == &raft_engine {
                assert_eq!(
                    StoreError::InvalidProvider {
                        expected: ProviderKind::ObjectStore,
                        actual: ProviderKind::RaftEngine,
                    },
                    error
                );
            } else {
                assert_eq!(
                    "mismatched WAL prefix, expected test/wal, actual other/prefix",
                    error.message()
                );
                assert_eq!(
                    StoreError::MismatchedWalPrefix {
                        expected: PREFIX.to_string(),
                        actual: "other/prefix".to_string(),
                    },
                    error
                );
            }
        }
    }
    assert_eq!(0, sim.latest(region_id));
}

#[test]
fn test_store_rejects_entries_of_another_region() {
    let mut sim = fresh(&manual());
    let region_id = region(1);

    let foreign = StoreError::Own(Error::InvalidWalEntry {
        region_id: region(2),
        reason: InvalidEntry::ProviderRegion {
            provider_region: region_id,
        },
    });
    let error = sim
        .store
        .entry(Vec::new(), 0, region(2), &provider(region_id))
        .unwrap_err();
    assert_eq!(foreign, error);
    let entry = Entry::naive(provider(region_id), region(2), 0, Vec::new());
    let error = sim.store.append_batch(vec![entry], 1, 0).unwrap_err();
    assert_eq!(foreign, error);
    let response = sim.start_batch(Vec::new());
    assert_eq!(Ok(HashMap::new()), sim.answer(response));

    // An entry with a part missing is refused as well.
    let mut entry = Entry::naive(provider(region_id), region_id, 0, b"part".to_vec());
    entry.complete = false;
    let error = sim.store.append_batch(vec![entry], 1, 0).unwrap_err();
    assert_eq!(
        StoreError::Own(Error::InvalidWalEntry {
            region_id,
            reason: InvalidEntry::Incomplete,
        }),
        error
    );
    assert_eq!(
        "invalid entry of region 4294967297(1, 1): multipart entry is incomplete",
        error.message()
    );
}

#[test]
fn test_store_obsolete_hides_entries_from_read_only() {
    let mut sim = fresh(&eager());
    let region_id = region(1);
    for data in ["a1", "a2", "a3"] {
        sim.append(region_id, data).unwrap();
    }

    // The objects below the watermark are collected, the highest is kept.
    let third = entries(&[(id(2, 1), "a3")]);
    sim.obsolete_and_collect(region_id, id(1, 1));
    assert_eq!(vec![2], sim.object_seqs());
    assert_eq!(third, sim.read(region_id, 1));
    assert_eq!(third, sim.read(region_id, id(2, 1)));
    assert_eq!(id(2, 1), sim.latest(region_id));

    // A lower watermark does not resurrect entries.
    sim.start_obsolete(region_id, 1).unwrap();
    assert_eq!(third, sim.read(region_id, 1));
    // The provider of another region cannot move this region's watermark.
    let error = sim
        .store
        .obsolete(&provider(region(2)), region_id, id(2, 1), 99)
        .unwrap_err();
    assert!(
        matches!(error, StoreError::Own(Error::InvalidWalEntry { .. })),
        "unexpected error: {error:?}"
    );
    assert_eq!(third, sim.read(region_id, 1));

    sim.store.obsolete_all(&provider(region_id), region_id).unwrap();
    assert!(sim.read(region_id, 1).is_empty());
    assert_eq!(id(2, 1), sim.latest(region_id));
    // Obsoleting everything neither moves the sequence nor collects.
    sim.append(region_id, "a4").unwrap();
    assert_eq!(vec![2, 3], sim.object_seqs());
}

#[test]
fn test_store_stop_is_idempotent_and_fails_open_waiters() {
    let mut sim = fresh(&manual());
    let region_id = region(1);
    let late = sim.entry(region_id, "a2");
    let pending = sim.start(region_id, "a1");

    sim.stop().unwrap();
    assert_eq!(Err(STOPPED), sim.answer(pending));
    sim.stop_again().unwrap();

    for batch in [vec![late], Vec::new()] {
        let error = sim.store.append_batch(batch, 9, 0).unwrap_err();
        assert_eq!(StoreError::Own(Error::ObjectStoreWalStopped), error);
    }
    assert!(sim.object_seqs().is_empty());
}

/// Appends one entry, stops the store while its create is in flight, then lets the create run or
/// fail. Returns the store and the outcome of the append.
fn stop_while_flush_is_blocked(proceed: bool) -> (Sim, Result<HashMap<u64, EntryId>, Failure>) {
    let mut sim = fresh(&eager());
    let pending = sim.start(region(1), "a1");
    let stop = sim.start_stop();
    assert!(!sim.is_answered(stop));
    if proceed {
        sim.create(0);
    } else {
        sim.fail_create(0);
    }
    sim.answer(stop).unwrap();
    let result = sim.answer(pending);
    (sim, result)
}

#[test]
fn test_store_stop_during_failed_flush_reports_stopped() {
    let (mut sim, result) = stop_while_flush_is_blocked(false);
    assert_eq!(Err(STOPPED), result);
    assert!(sim.object_seqs().is_empty());
    let error = sim.store.append_batch(Vec::new(), 9, 0).unwrap_err();
    assert_eq!(StoreError::Own(Error::ObjectStoreWalStopped), error);
}

#[test]
fn test_store_stop_during_successful_flush_acknowledges_waiters() {
    let (mut sim, result) = stop_while_flush_is_blocked(true);
    let region_id = region(1);
    assert_eq!(Ok(ids(&[(region_id, 1)])), result);
    assert_eq!(vec![0], sim.object_seqs());
    assert_eq!(1, sim.latest(region_id));
    let error = sim.store.append_batch(Vec::new(), 9, 0).unwrap_err();
    assert_eq!(StoreError::Own(Error::ObjectStoreWalStopped), error);
}

#[test]
fn test_store_stop_with_several_creates_in_flight() {
    let mut sim = fresh(&eager());
    let region_id = region(1);
    // Four creates are in flight, the fifth batch waits for a slot.
    let appends = sim.start_many(region_id, MAX_IN_FLIGHT_CREATES + 1);
    assert_eq!(vec![0, 1, 2, 3], sim.creates);

    let stop = sim.start_stop();
    assert!(!sim.is_answered(stop));

    // The creates in flight run to completion in any order and are acknowledged; the batch that
    // never started learns of the stop.
    for object_seq in [2, 0, 3, 1] {
        sim.create(object_seq);
    }
    sim.answer(stop).unwrap();
    for (object_seq, append) in appends[..MAX_IN_FLIGHT_CREATES].iter().enumerate() {
        assert_eq!(Ok(ids(&[(region_id, id(object_seq as u64, 1))])), sim.answer(*append));
    }
    assert_eq!(Err(STOPPED), sim.answer(appends[MAX_IN_FLIGHT_CREATES]));
    // No create was started after stop began.
    assert!(sim.creates.is_empty());
    assert_eq!(vec![0, 1, 2, 3], sim.object_seqs());
    assert_eq!(id(3, 1), sim.latest(region_id));
    assert!(sim.exited);
}

#[test]
fn test_store_seal_after_stop_reports_stopped() {
    let mut sim = fresh(&manual());
    sim.stop().unwrap();
    let stopped = StoreError::Own(Error::ObjectStoreWalStopped);
    assert_eq!(stopped, sim.store.seal_open_batch(9).unwrap_err());
    assert!(sim.object_seqs().is_empty());

    // A seal whose create is in flight when stop begins is acknowledged once the object is durable.
    let mut sim = fresh(&manual());
    let first = sim.start(region(1), "a1");
    let seal = sim.start_seal();
    let stop = sim.start_stop();
    assert!(!sim.is_answered(seal));
    sim.create(0);
    sim.answer(stop).unwrap();
    sim.answer(first).unwrap();
    sim.answer(seal).unwrap();
    assert_eq!(stopped, sim.store.seal_open_batch(9).unwrap_err());
    assert_eq!(vec![0], sim.object_seqs());
}

#[test]
fn test_store_stop_during_conflicting_flush_reports_stopped_and_poisons() {
    let mut sim = fresh(&eager());
    let region_id = region(1);
    let pending = sim.start(region_id, "a1");
    let stop = sim.start_stop();
    // The sequence is taken by different content before the create runs.
    sim.objects.insert(0, b"foreign".to_vec());
    sim.create(0);
    sim.answer(stop).unwrap();
    assert_eq!(Err(STOPPED), sim.answer(pending));
    for error in [
        sim.store.latest_entry_id(&provider(region_id)).unwrap_err(),
        sim.store.plan_read(&provider(region_id), 1).unwrap_err(),
    ] {
        assert_eq!(
            Error::WalObjectConflict { object_seq: 0 },
            unwrap_shared_store(error)
        );
    }
}

#[test]
fn test_store_rejects_a_prefix_whose_entry_ids_leave_no_sequence() {
    // The maximum id names the last sequence, so no new id of the region could be greater: the
    // store cannot be constructed.
    let objects = Objects::from([(0, encoded(0, region(1), &[u64::MAX]))]);
    assert_eq!(
        Error::WalObjectSequenceExhausted {
            last_object_seq: OBJECT_SEQ_LIMIT - 1
        },
        try_open(&objects, &manual()).map(|_| ()).unwrap_err()
    );
}

fn contiguous_objects() -> Objects {
    Objects::from([
        (0, encoded(0, region(1), &[1, 2])),
        (1, encoded(1, region(1), &[4_999_999, 5_000_000])),
        (2, encoded(2, region(2), &[1])),
    ])
}

#[test]
fn test_store_resumes_above_contiguous_entry_ids() {
    // Objects written under the contiguous scheme: their ids carry no object information, and the
    // largest lies far above the ids the sequence after them would assign.
    let region_one = region(1);
    let region_two = region(2);
    assert!(5_000_000 > id(3, 1));

    // The sequence resumes above the object the largest id names, so the first new id of every
    // region is greater than every old one.
    let mut sim = open(&contiguous_objects(), &eager());
    assert_eq!(5_000_000, sim.latest(region_one));
    assert_eq!(1, sim.latest(region_two));
    let batch = vec![sim.entry(region_one, "a"), sim.entry(region_two, "b")];
    assert_eq!(
        Ok(ids(&[(region_one, id(5, 1)), (region_two, id(5, 1))])),
        sim.append_batch(batch)
    );
    assert!(id(5, 1) > 5_000_000);
    assert_eq!(vec![0, 1, 2, 5], sim.object_seqs());
    assert_eq!(
        entries(&[
            (1, "e1"),
            (2, "e2"),
            (4_999_999, "e4999999"),
            (5_000_000, "e5000000"),
            (id(5, 1), "a")
        ]),
        sim.read(region_one, 1)
    );
    assert_eq!(entries(&[(1, "e1"), (id(5, 1), "b")]), sim.read(region_two, 1));
    sim.stop().unwrap();

    // The old objects stay readable after a restart and the sequence continues after the new
    // object.
    let mut sim = open(&sim.objects, &eager());
    assert_eq!(id(5, 1), sim.latest(region_one));
    sim.append(region_two, "b2").unwrap();
    assert_eq!(vec![0, 1, 2, 5, 6], sim.object_seqs());
    assert_eq!(
        entries(&[(1, "e1"), (id(5, 1), "b"), (id(6, 1), "b2")]),
        sim.read(region_two, 1)
    );
}

#[test]
fn test_store_assigns_ids_from_the_object_sequence() {
    let mut sim = fresh(&enqueued(manual()));
    let region_one = region(1);
    let region_two = region(2);

    // Regions of one object share its sequence and take their own positions, in admission order.
    let batch = vec![
        sim.entry(region_one, "a1"),
        sim.entry(region_two, "b1"),
        sim.entry(region_one, "a2"),
    ];
    assert_eq!(
        Ok(ids(&[(region_one, id(0, 2)), (region_two, id(0, 1))])),
        sim.append_batch(batch)
    );
    sim.seal();
    let batch = vec![sim.entry(region_two, "b2"), sim.entry(region_one, "a3")];
    assert_eq!(
        Ok(ids(&[(region_one, id(1, 1)), (region_two, id(1, 1))])),
        sim.append_batch(batch)
    );
    sim.seal();
    assert_eq!(vec![0, 1], sim.object_seqs());

    // Across consecutive objects the ids of a region step by the position width, and the high bits
    // name the object.
    assert_eq!(
        entries(&[(1, "a1"), (2, "a2"), (id(1, 1), "a3")]),
        sim.read(region_one, 1)
    );
    assert_eq!(entries(&[(1, "b1"), (id(1, 1), "b2")]), sim.read(region_two, 1));
    assert_eq!(POSITION_LIMIT, id(1, 1) - id(0, 1));
    assert_eq!(1, id(1, 1) >> 20);
    assert_eq!(id(1, 1), sim.latest(region_one));
    assert_eq!(id(1, 1), sim.latest(region_two));
}

#[test]
fn test_store_seals_when_a_region_exhausts_its_positions() {
    let mut sim = fresh(&enqueued(manual()));
    let region_id = region(1);
    let entries_of = |count: u64| {
        (0..count)
            .map(|_| Entry::naive(provider(region_id), region_id, 0, Vec::new()))
            .collect::<Vec<_>>()
    };

    // The open batch holds every position of the region.
    assert_eq!(
        Ok(ids(&[(region_id, id(0, POSITION_LIMIT - 1))])),
        sim.append_batch(entries_of(POSITION_LIMIT - 1))
    );
    assert!(sim.object_seqs().is_empty());

    // The next entry of the region seals the batch and opens the next object.
    assert_eq!(Ok(ids(&[(region_id, id(1, 1))])), sim.append(region_id, "next"));
    let wait = sim.start_wait(region_id, id(0, POSITION_LIMIT - 1));
    sim.answer(wait).unwrap();
    assert_eq!(vec![0], sim.object_seqs());

    // An append that alone runs past the range fits no object: it seals the open batch like any
    // append the batch cannot take, then it is refused without poisoning the store.
    assert_eq!(
        Err(Failure::Own(Error::WalEntryPositionExhausted { region_id })),
        sim.append_batch(entries_of(POSITION_LIMIT))
    );
    assert_eq!(Ok(ids(&[(region_id, id(2, 1))])), sim.append(region_id, "after"));
    sim.seal();
    assert_eq!(vec![0, 1, 2], sim.object_seqs());
    assert_eq!(
        entries(&[(id(1, 1), "next"), (id(2, 1), "after")]),
        sim.read(region_id, id(1, 1))
    );
}

#[test]
fn test_store_obsolete_raises_the_sequence_floor() {
    let mut sim = fresh(&manual());
    let region_one = region(1);
    let region_two = region(2);
    let first = sim.start(region_one, "a1");
    sim.seal();
    assert_eq!(Ok(ids(&[(region_one, 1)])), sim.answer(first));
    let second = sim.start(region_one, "a2");

    // A durable watermark names an object below the next sequence and changes nothing: the open
    // batch goes on under sequence 1.
    sim.start_obsolete(region_one, 1).unwrap();
    let third = sim.start(region_one, "a3");

    // A watermark that names a later object cannot move the sequence while the open batch handed
    // out ids under it: neither the sequence nor the watermark moves.
    assert_eq!(
        Err(Failure::Own(Error::WalObjectSequenceUnsettled { object_seq: 1 })),
        sim.start_obsolete(region_two, id(3, 7))
    );
    assert_eq!(None, sim.watermark(region_two));

    // Once the batch is durable the sequence moves above that object, so the region's next id is
    // greater than the watermark.
    sim.seal();
    assert_eq!(Ok(ids(&[(region_one, id(1, 1))])), sim.answer(second));
    assert_eq!(Ok(ids(&[(region_one, id(1, 2))])), sim.answer(third));
    assert_eq!(vec![0, 1], sim.object_seqs());
    sim.obsolete_and_collect(region_two, id(3, 7));
    assert_eq!(Some(id(3, 7)), sim.watermark(region_two));
    // Object 0 held only entry 1 of region one, at its watermark, and object 1 was the highest:
    // only object 0 was collected.
    assert_eq!(vec![1], sim.object_seqs());
    let fourth = sim.start(region_two, "b1");
    sim.seal();
    assert_eq!(Ok(ids(&[(region_two, id(4, 1))])), sim.answer(fourth));
    assert!(id(4, 1) > id(3, 7));
    assert_eq!(vec![1, 4], sim.object_seqs());
    // The watermark hides nothing of this prefix.
    assert_eq!(entries(&[(id(4, 1), "b1")]), sim.read(region_two, 1));
    sim.stop().unwrap();
}

#[test]
fn test_store_floor_waits_for_a_create_in_flight_and_its_rollback() {
    let mut sim = fresh(&eager());
    let region_one = region(1);
    let region_two = region(2);
    let pending = sim.start(region_one, "a1");
    let unsettled = Err(Failure::Own(Error::WalObjectSequenceUnsettled { object_seq: 0 }));

    // Object 0 is in flight: the floor cannot move past it.
    assert_eq!(unsettled, sim.start_obsolete(region_two, id(5, 1)));

    // The create fails; whether an object exists at sequence 0 is not known to the store, so the
    // floor still cannot skip it.
    sim.fail_create(0);
    sim.answer(pending).unwrap_err();
    assert!(sim.object_seqs().is_empty());
    assert_eq!(unsettled, sim.start_obsolete(region_two, id(5, 1)));

    // The retry reconciles sequence 0, after which the floor applies.
    assert_eq!(Ok(ids(&[(region_one, 1)])), sim.append(region_one, "a1"));
    sim.start_obsolete(region_two, id(5, 1)).unwrap();
    assert_eq!(Ok(ids(&[(region_one, id(6, 1))])), sim.append(region_one, "a2"));
    assert_eq!(vec![0, 6], sim.object_seqs());
}

#[test]
fn test_store_floor_does_not_skip_an_object_left_by_a_failed_create() {
    let mut sim = fresh(&eager());
    let region_one = region(1);
    let region_two = region(2);

    // Object 0 is written, but its create is reported as failed.
    let first = sim.start(region_one, "a1");
    sim.fail_create_after_write(0);
    sim.answer(first).unwrap_err();
    assert_eq!(vec![0], sim.object_seqs());
    assert_eq!(0, sim.latest(region_one));

    // A floor from another region may not skip sequence 0.
    assert_eq!(
        Err(Failure::Own(Error::WalObjectSequenceUnsettled { object_seq: 0 })),
        sim.start_obsolete(region_two, id(5, 1))
    );
    assert_eq!(None, sim.watermark(region_two));

    // The identical retry reconciles sequence 0; now the floor applies.
    assert_eq!(Ok(ids(&[(region_one, 1)])), sim.append(region_one, "a1"));
    sim.start_obsolete(region_two, id(5, 1)).unwrap();
    assert_eq!(Ok(ids(&[(region_two, id(6, 1))])), sim.append(region_two, "b1"));
    assert_eq!(vec![0, 6], sim.object_seqs());
    sim.stop().unwrap();

    // Recovery indexes the same objects the store did: one copy of "a1".
    let mut sim = open(&sim.objects, &eager());
    assert_eq!(entries(&[(1, "a1")]), sim.read(region_one, 0));
    assert_eq!(entries(&[(id(6, 1), "b1")]), sim.read(region_two, 0));
    assert_eq!(1, sim.latest(region_one));
}

#[test]
fn test_store_floor_is_measured_against_a_rollback_not_the_next_sequence() {
    let mut sim = fresh(&eager());
    let region_one = region(1);
    let region_two = region(2);
    let pending = sim.start(region_one, "a1");

    // Object 0 is in flight and the next sequence is 1, but a failure rolls it back to 0: a
    // watermark naming object 0 is not accepted.
    assert_eq!(
        Err(Failure::Own(Error::WalObjectSequenceUnsettled { object_seq: 0 })),
        sim.start_obsolete(region_two, 1)
    );
    assert_eq!(None, sim.watermark(region_two));
    sim.fail_create(0);
    sim.answer(pending).unwrap_err();

    // The other region takes id 1 under sequence 0 and can read it back.
    assert_eq!(Ok(ids(&[(region_two, 1)])), sim.append(region_two, "b1"));
    assert_eq!(1, sim.latest(region_two));
    assert_eq!(entries(&[(1, "b1")]), sim.read(region_two, 0));
}

#[test]
fn test_store_enqueued_issued_id_needs_no_floor_while_in_flight() {
    let mut sim = fresh(&enqueued(manual()));
    let region_id = region(1);
    sim.append(region_id, "a1").unwrap();
    let seal = sim.start_seal();
    assert!(!sim.is_answered(seal));

    // Id 1 was handed out and is in flight: it is accepted without waiting for the upload, with
    // the watermark capped to what is durable. An id the store never handed out has to wait.
    sim.start_obsolete(region_id, 1).unwrap();
    assert_eq!(Some(0), sim.watermark(region_id));
    assert_eq!(
        Err(Failure::Own(Error::WalObjectSequenceUnsettled { object_seq: 0 })),
        sim.start_obsolete(region_id, 2)
    );

    sim.create(0);
    sim.answer(seal).unwrap();
    assert_eq!(entries(&[(1, "a1")]), sim.read(region_id, 0));
    sim.start_obsolete(region_id, 1).unwrap();
    assert!(sim.read(region_id, 0).is_empty());
    assert_eq!(Ok(ids(&[(region_id, id(1, 1))])), sim.append(region_id, "a2"));
}

#[test]
fn test_store_enqueued_inherited_watermark_raises_the_floor() {
    let mut sim = fresh(&enqueued(manual()));
    let region_id = region(1);

    // The region has nothing durable here, so the recorded watermark stays at zero, but its ids
    // must still start above the watermark.
    sim.start_obsolete(region_id, id(5, 1)).unwrap();
    assert_eq!(Some(0), sim.watermark(region_id));
    assert_eq!(Ok(ids(&[(region_id, id(6, 1))])), sim.append(region_id, "r1"));
    sim.seal();
    let wait = sim.start_wait(region_id, id(6, 1));
    sim.answer(wait).unwrap();
    assert_eq!(id(6, 1), sim.latest(region_id));
    sim.stop().unwrap();

    // Replay from the watermark sees the entry.
    let mut sim = open(&sim.objects, &enqueued(manual()));
    assert_eq!(entries(&[(id(6, 1), "r1")]), sim.read(region_id, id(5, 1) + 1));
}

#[test]
fn test_store_obsolete_queued_behind_stop_records_the_watermark() {
    let mut sim = fresh(&eager());
    let region_id = region(1);
    sim.append(region_id, "a1").unwrap();
    sim.stop().unwrap();

    // Nothing is assigned an id any more, so the watermark alone holds.
    sim.store.obsolete_after_exit(region_id, 1);
    assert_eq!(Some(1), sim.watermark(region_id));
    assert!(sim.read(region_id, 0).is_empty());
    assert_eq!(1, sim.latest(region_id));
    assert_eq!(vec![0], sim.object_seqs());
}

#[test]
fn test_store_seals_by_size_and_by_interval() {
    // Only the size limit can seal.
    let mut sim = fresh(&eager());
    sim.append(region(1), "a1").unwrap();
    assert_eq!(vec![0], sim.object_seqs());

    // Only the interval can seal: the size limit is never reached.
    let mut sim = fresh(&config(SECOND, u64::MAX));
    let append = sim.start(region(1), "a1");
    sim.run();
    assert!(!sim.is_answered(append));
    sim.store.tick();
    sim.run();
    sim.answer(append).unwrap();
    assert_eq!(vec![0], sim.object_seqs());
    // Ticks with an empty open batch do not create objects.
    sim.store.tick();
    sim.run();
    assert_eq!(vec![0], sim.object_seqs());
}

#[test]
fn test_store_rejects_invalid_config() {
    for (config, reason) in [
        (config(9_000_000, 1), InvalidSetting::FlushInterval { nanos: 9_000_000 }),
        (config(SECOND, 0), InvalidSetting::MaxBatchBytes { bytes: 0 }),
        (
            ObjectStoreWalConfig {
                prefix: "/absolute".to_string(),
                ..config(SECOND, 1)
            },
            InvalidSetting::Prefix,
        ),
    ] {
        let error = try_open(&Objects::new(), &config).map(|_| ()).unwrap_err();
        assert_eq!(Error::InvalidWalObjectStore { reason }, error);
    }
}

#[test]
fn segments_end_before_the_footer_of_their_object() {
    let objects = populate(6, 5);
    let store = open(&objects, &manual()).store;
    for (object_seq, bytes) in &objects {
        let (trailer, footer) = footer_of(bytes);
        for entry in footer {
            let location = store.segment_location(&provider(entry.region_id), *object_seq);
            let (key, start, end) = location.unwrap().unwrap();
            assert_eq!(path(*object_seq), key);
            assert_eq!(entry.segment_offset, start);
            assert_eq!(entry.segment_offset + entry.segment_len, end);
            assert!(end <= trailer.footer_offset);
        }
    }
}

/// Writes `objects` objects, each holding one entry of most of the regions `1..=regions`, with a
/// different subset per object.
fn populate(objects: usize, regions: u32) -> Objects {
    let mut sim = fresh(&eager());
    for object in 0..objects {
        let batch = (1..=regions)
            .filter(|number| (object + *number as usize) % 3 != 0)
            .map(|number| sim.entry(region(number), &format!("o{object}-r{number}")))
            .collect::<Vec<_>>();
        sim.append_batch(batch).unwrap();
    }
    sim.stop().unwrap();
    sim.objects
}

fn footer_of(bytes: &[u8]) -> (FixedTrailer, Vec<FooterEntry>) {
    let trailer = decode_trailer(&bytes[bytes.len() - TRAILER_LEN..]).unwrap();
    let range = footer_range(trailer, bytes.len()).unwrap();
    let footer = decode_footer(&bytes[range.start..range.end], trailer).unwrap();
    (trailer, footer)
}

fn assert_invalid_object(error: Error, object_seq: u64, expected: &str) {
    match error {
        Error::InvalidWalObject { object_seq: actual, reason } => {
            assert_eq!(object_seq, actual);
            assert!(
                reason.message().contains(expected),
                "expected reason to contain {expected:?}, actual {reason:?}"
            );
        }
        other => panic!("expected an invalid object error, actual {other:?}"),
    }
}

#[test]
fn test_store_footer_recovery_matches_full_decode() {
    let objects = populate(40, 5);
    let found = recover_objects(&objects).unwrap();
    let expected = recover_by_decoding(&objects).unwrap();

    assert_eq!(40, catalog_contents(&found.catalog).len());
    assert_eq!(
        catalog_contents(&expected.catalog),
        catalog_contents(&found.catalog)
    );
    assert_eq!(expected.next_object_seq, found.next_object_seq);
    assert_eq!(40, found.next_object_seq);
    assert_eq!(expected.durable_entry_ids, found.durable_entry_ids);
    assert_eq!(5, found.durable_entry_ids.len());

    let mut sim = open(&objects, &eager());
    for number in 1..=5 {
        let region_id = region(number);
        // The objects `populate` gave the region one entry each.
        let objects = (0..40u64)
            .filter(|object| (object + number as u64) % 3 != 0)
            .collect::<Vec<_>>();
        let durable = found.durable_entry_ids[&region_id.as_u64()];
        assert_eq!(id(*objects.last().unwrap(), 1), durable);
        assert_eq!(durable, sim.latest(region_id));
        assert_eq!(objects.len(), sim.read(region_id, 1).len());
    }
}

#[test]
fn test_store_recovery_rejects_corrupted_trailer_version_and_footer() {
    type Corrupt = fn(&mut Vec<u8>);
    let cases: [(&str, Corrupt); 3] = [
        ("invalid trailer magic", |bytes| {
            let last = bytes.len() - 1;
            bytes[last] ^= 1;
        }),
        ("unsupported format version 2", |bytes| {
            bytes[8..10].copy_from_slice(&2u16.to_be_bytes());
        }),
        ("footer checksum mismatch", |bytes| {
            let (trailer, _) = footer_of(bytes);
            bytes[trailer.footer_offset as usize] ^= 1;
        }),
    ];
    for (reason, corrupt) in cases {
        let mut objects = populate(3, 2);
        corrupt(objects.get_mut(&1).unwrap());
        for action in [CorruptedSegmentAction::Skip, CorruptedSegmentAction::Fail] {
            let config = on_corruption(action, eager());
            let error = try_open(&objects, &config).map(|_| ()).unwrap_err();
            assert_invalid_object(error, 1, reason);
        }
    }
}

#[test]
fn test_store_recovery_rejects_header_sequence_mismatch() {
    let objects = Objects::from([(5, encoded(0, region(1), &[1]))]);
    let error = try_open(&objects, &eager()).map(|_| ()).unwrap_err();
    assert_invalid_object(error, 5, "header sequence 0 does not match key sequence 5");
}

/// Overwrites the byte range of footer entry `index` and refreshes the footer checksum, so the
/// footer is intact but describes the wrong bytes.
fn rewrite_segment_range(bytes: &mut [u8], index: usize, offset: u64, len: u64) {
    let trailer_start = bytes.len() - TRAILER_LEN;
    let (trailer, _) = footer_of(bytes);
    let footer = footer_range(trailer, bytes.len()).unwrap();
    let entry = footer.start + 4 + index * FOOTER_ENTRY_LEN;
    bytes[entry + 28..entry + 36].copy_from_slice(&offset.to_be_bytes());
    bytes[entry + 36..entry + 44].copy_from_slice(&len.to_be_bytes());
    let checksum = crc32fast::hash(&bytes[footer.start..footer.end]);
    bytes[trailer_start + 16..trailer_start + 20].copy_from_slice(&checksum.to_be_bytes());
}

#[test]
fn test_store_recovery_rejects_segment_ranges_that_do_not_tile_the_object() {
    type Corrupt = fn(&mut Vec<u8>, &[FooterEntry]);
    let cases: [(&str, Corrupt); 5] = [
        ("overflows the object", |bytes, footer| {
            rewrite_segment_range(bytes, 0, u64::MAX, footer[0].segment_len);
        }),
        ("invalid segment range", |bytes, footer| {
            let second = &footer[1];
            rewrite_segment_range(bytes, 1, second.segment_offset + 1, second.segment_len);
        }),
        ("invalid segment range", |bytes, footer| {
            let second = &footer[1];
            rewrite_segment_range(bytes, 1, second.segment_offset - 1, second.segment_len);
        }),
        ("invalid segment range", |bytes, footer| {
            let second = &footer[1];
            rewrite_segment_range(bytes, 1, second.segment_offset, second.segment_len + 1);
        }),
        ("segments end at", |bytes, footer| {
            let second = &footer[1];
            rewrite_segment_range(bytes, 1, second.segment_offset, second.segment_len - 1);
        }),
    ];
    for (reason, corrupt) in cases {
        let mut objects = populate(2, 3);
        let bytes = objects.get_mut(&1).unwrap();
        let (_, footer) = footer_of(bytes);
        assert_eq!(2, footer.len());
        corrupt(bytes, &footer);
        // The footer itself still verifies.
        footer_of(bytes);

        let error = try_open(&objects, &eager()).map(|_| ()).unwrap_err();
        assert_invalid_object(error, 1, reason);
        let error = recover_by_decoding(&objects).map(|_| ()).unwrap_err();
        assert_invalid_object(error, 1, reason);
    }
}

/// Writes object 0 with one entry of region 1 and one of region 2 and object 1 with a second entry
/// of region 2, then flips a byte in the segment of region 2 in object 0.
fn write_corrupted_segment() -> Objects {
    let region_two = region(2);
    let mut sim = fresh(&eager());
    let batch = vec![sim.entry(region(1), "a1"), sim.entry(region_two, "b1")];
    sim.append_batch(batch).unwrap();
    sim.append(region_two, "b2").unwrap();
    sim.stop().unwrap();
    let (location, start, end) = sim
        .store
        .segment_location(&provider(region_two), 0)
        .unwrap()
        .unwrap();
    assert_eq!(path(0), location);
    let bytes = sim.objects.get_mut(&0).unwrap();
    let (_, footer) = footer_of(bytes);
    assert_eq!(region_two, footer[1].region_id);
    assert_eq!(footer[1].segment_offset, start);
    assert_eq!(footer[1].segment_offset + footer[1].segment_len, end);
    bytes[end as usize - 1] ^= 1;
    assert_eq!(Ok(None), sim.store.segment_location(&provider(region(1)), 1));
    sim.objects
}

#[test]
fn test_store_skips_a_corrupted_segment_and_records_a_hole() {
    let region_one = region(1);
    let region_two = region(2);

    // Recovery indexes the object; a read of the other region and of the later object of the
    // damaged region are unaffected.
    let mut sim = open(&write_corrupted_segment(), &eager());
    assert_eq!(1, sim.latest(region_one));
    assert_eq!(id(1, 1), sim.latest(region_two));
    assert_eq!(entries(&[(1, "a1")]), sim.read(region_one, 1));
    assert_eq!(entries(&[(id(1, 1), "b2")]), sim.read(region_two, id(1, 1)));
    assert!(sim.holes(region_two).is_empty());

    // A read across the damaged segment continues with the next object and records the hole.
    assert_eq!(entries(&[(id(1, 1), "b2")]), sim.read(region_two, 1));
    let hole = WalHole {
        path: path(0),
        object_seq: 0,
        min_entry_id: 1,
        max_entry_id: 1,
    };
    assert_eq!(vec![hole.clone()], sim.holes(region_two));
    assert!(sim.holes(region_one).is_empty());

    // Every read across the segment skips it again; the hole is one.
    assert_eq!(entries(&[(id(1, 1), "b2")]), sim.read(region_two, 1));
    assert_eq!(vec![hole], sim.holes(region_two));
}

#[test]
fn test_store_corrupted_segment_fails_the_read_that_decodes_it() {
    let region_one = region(1);
    let region_two = region(2);

    // Recovery indexes the object; only the corrupted segment is unreadable.
    let config = on_corruption(CorruptedSegmentAction::Fail, eager());
    let mut sim = open(&write_corrupted_segment(), &config);
    assert_eq!(1, sim.latest(region_one));
    assert_eq!(id(1, 1), sim.latest(region_two));
    assert_eq!(entries(&[(1, "a1")]), sim.read(region_one, 1));
    assert_eq!(entries(&[(id(1, 1), "b2")]), sim.read(region_two, id(1, 1)));
    let error = sim.try_read(region_two, 1).unwrap_err();
    assert_invalid_object(
        error,
        0,
        "segment of region 4294967298(1, 2) checksum mismatch",
    );
    assert!(sim.holes(region_two).is_empty());
}

#[test]
fn test_store_reads_a_segment_whose_first_download_was_damaged() {
    for action in [CorruptedSegmentAction::Skip, CorruptedSegmentAction::Fail] {
        let mut sim = fresh(&on_corruption(action, eager()));
        let region_two = region(2);
        let batch = vec![sim.entry(region(1), "a1"), sim.entry(region_two, "b1")];
        sim.append_batch(batch).unwrap();
        sim.append(region_two, "b2").unwrap();

        // The first download of the segment is damaged, the second is not: the read sees the
        // entries and records no hole.
        sim.damage_reads_of = Some(0);
        sim.damaged_reads = 1;
        assert_eq!(entries(&[(1, "b1"), (id(1, 1), "b2")]), sim.read(region_two, 1));
        assert_eq!(0, sim.damaged_reads);
        assert!(sim.holes(region_two).is_empty());
    }
}

#[test]
fn test_store_recovery_fetches_a_footer_longer_than_the_tail_window() {
    let regions = (RECOVERY_TAIL_WINDOW / FOOTER_ENTRY_LEN + 100) as u32;
    let mut sim = fresh(&eager());
    let wide = (1..=regions)
        .map(|number| sim.entry(region(number), "wide"))
        .collect::<Vec<_>>();
    sim.append_batch(wide).unwrap();
    sim.append(region(1), "narrow").unwrap();
    sim.stop().unwrap();

    let (trailer, _) = footer_of(&sim.objects[&0]);
    assert!(trailer.footer_len > RECOVERY_TAIL_WINDOW as u64);
    let found = recover_objects(&sim.objects).unwrap();
    let expected = recover_by_decoding(&sim.objects).unwrap();
    assert_eq!(
        catalog_contents(&expected.catalog),
        catalog_contents(&found.catalog)
    );
    assert_eq!(expected.next_object_seq, found.next_object_seq);
    assert_eq!(expected.durable_entry_ids, found.durable_entry_ids);
    assert_eq!(regions as usize, found.durable_entry_ids.len());

    // The wide object takes the header, the tail window and the footer; the narrow one is read
    // whole.
    let mut reads = Vec::new();
    fetch_footer(0, &sim.objects[&0], &mut reads).unwrap();
    reads.sort_unstable();
    let size = sim.objects[&0].len() as u64;
    assert_eq!(
        vec![
            (0, HEADER_LEN as u64),
            (trailer.footer_offset, trailer.footer_len),
            (size - RECOVERY_TAIL_WINDOW as u64, RECOVERY_TAIL_WINDOW as u64),
        ],
        reads
    );
    let mut reads = Vec::new();
    fetch_footer(1, &sim.objects[&1], &mut reads).unwrap();
    assert!(reads.is_empty());

    let mut sim = open(&sim.objects, &eager());
    assert_eq!(
        entries(&[(1, "wide"), (id(1, 1), "narrow")]),
        sim.read(region(1), 1)
    );
    assert_eq!(entries(&[(1, "wide")]), sim.read(region(regions), 1));
}

#[test]
fn recovery_rejects_objects_that_are_too_short() {
    let object = ListedObject { object_seq: 3, size: 69 };
    let error = plan_fetch(&object).unwrap_err();
    assert_invalid_object(error, 3, "truncated object, expected at least 70 bytes, actual 69");

    // The object holds fewer bytes than the listing announced.
    let bytes = encoded(3, region(1), &[1]);
    let object = ListedObject {
        object_seq: 3,
        size: bytes.len() as u64 + 1,
    };
    let plan = plan_fetch(&object).unwrap();
    let error = begin_footer(&object, plan, &bytes, &bytes).map(|_| ()).unwrap_err();
    assert_eq!(
        Error::InvalidWalObject {
            object_seq: 3,
            reason: Corruption::ShortObject {
                size: bytes.len() as u64 + 1,
                head: bytes.len() as u64,
                tail: bytes.len() as u64,
            },
        },
        error
    );
}

#[test]
fn recovery_rejects_objects_that_conflict() {
    let objects = Objects::from([
        (0, encoded(0, region(1), &[5])),
        (1, encoded(1, region(1), &[5, 6])),
    ]);
    let error = try_open(&objects, &eager()).map(|_| ()).unwrap_err();
    assert_invalid_object(error, 1, "are not strictly increasing");
}

#[test]
fn test_store_pipelines_creates_and_acknowledges_in_sequence_order() {
    let mut sim = fresh(&eager());
    let region_id = region(1);
    let appends = sim.start_many(region_id, MAX_IN_FLIGHT_CREATES + 2);

    // At most the limit of creates run at a time; the rest wait for a slot.
    assert_eq!(vec![0, 1, 2, 3], sim.creates);
    assert!(appends.iter().all(|append| !sim.is_answered(*append)));

    // Objects 2 and 1 become durable before object 0 and free a slot each, but nothing is
    // acknowledged ahead of object 0.
    for (released, expected_next) in [(2, 4), (1, 5)] {
        sim.create(released);
        assert_eq!(Some(&expected_next), sim.creates.last());
    }
    assert_eq!(vec![1, 2], sim.object_seqs());
    assert!(appends.iter().all(|append| !sim.is_answered(*append)));
    assert_eq!(0, sim.latest(region_id));

    // Object 0 releases the acknowledgements of objects 0 to 2.
    sim.create(0);
    for object_seq in 0..3 {
        assert_eq!(
            Ok(ids(&[(region_id, id(object_seq, 1))])),
            sim.answer(appends[object_seq as usize])
        );
    }
    assert_eq!(id(2, 1), sim.latest(region_id));

    // Object 5 before object 4: the append of object 5 waits for it.
    sim.create(3);
    sim.create(5);
    assert_eq!(Ok(ids(&[(region_id, id(3, 1))])), sim.answer(appends[3]));
    assert!(!sim.is_answered(appends[4]) && !sim.is_answered(appends[5]));
    sim.create(4);
    for object_seq in 4..6 {
        assert_eq!(
            Ok(ids(&[(region_id, id(object_seq, 1))])),
            sim.answer(appends[object_seq as usize])
        );
    }
    assert_eq!(vec![0, 1, 2, 3, 4, 5], sim.object_seqs());
    assert_eq!(
        entries(&[
            (id(0, 1), "a1"),
            (id(1, 1), "a2"),
            (id(2, 1), "a3"),
            (id(3, 1), "a4"),
            (id(4, 1), "a5"),
            (id(5, 1), "a6")
        ]),
        sim.read(region_id, 1)
    );
}

#[test]
fn test_store_seals_at_the_threshold_while_creates_are_in_flight() {
    // The threshold holds exactly two entries, so every second admission must seal, whether or
    // not a create is in flight.
    let region_id = region(1);
    let sample = Entry::naive(provider(region_id), region_id, 0, b"a1".to_vec());
    let threshold = 2 * sample.estimated_size;
    let mut sim = fresh(&config(3600 * SECOND, threshold as u64));

    // The batches seal at admissions 2, 4, 6 and 8 and the ninth entry stays in the open batch.
    let appends = sim.start_many(region_id, 9);
    assert_eq!(vec![0, 1, 2, 3], sim.creates);
    sim.run();
    for index in 0..8 {
        assert_eq!(
            Ok(ids(&[(region_id, id(index / 2, index % 2 + 1))])),
            sim.answer(appends[index as usize])
        );
    }
    assert!(!sim.is_answered(appends[8]));

    assert_eq!(vec![0, 1, 2, 3], sim.object_seqs());
    for object_seq in 0..4 {
        let decoded = decode_object(&sim.objects[&object_seq]).unwrap();
        assert_eq!(2, decoded.records.len(), "object {object_seq}");
    }
}

#[test]
fn test_store_transient_failure_rolls_back_batches_that_were_not_created() {
    let mut sim = fresh(&eager());
    let region_id = region(1);
    // Every slot is taken; the last batch waits for one.
    let appends = sim.start_many(region_id, MAX_IN_FLIGHT_CREATES + 1);
    assert_eq!(vec![0, 1, 2, 3], sim.creates);

    // Object 0 fails while the others are in flight: nothing is decided until they complete, and
    // the freed slots start no create. None of the later objects is created either: every batch
    // fails and the sequence rolls back to object 0.
    sim.fail_create(0);
    assert!(appends.iter().all(|append| !sim.is_answered(*append)));
    assert_eq!(vec![1, 2, 3], sim.creates);
    for object_seq in 1..4 {
        sim.fail_create(object_seq);
    }
    for append in appends {
        let error = unwrap_shared(sim.answer(append).unwrap_err());
        assert!(matches!(error, Error::WalObjectStore { .. }), "unexpected error: {error:?}");
    }
    assert!(sim.creates.is_empty());
    assert!(sim.object_seqs().is_empty());
    assert_eq!(0, sim.latest(region_id));

    // The retried entries take the same sequences and ids.
    let retries = sim.start_many(region_id, 2);
    sim.run();
    for (retry, object_seq) in retries.into_iter().zip(0..) {
        assert_eq!(Ok(ids(&[(region_id, id(object_seq, 1))])), sim.answer(retry));
    }
    assert_eq!(vec![0, 1], sim.object_seqs());
    assert_eq!(
        entries(&[(id(0, 1), "a1"), (id(1, 1), "a2")]),
        sim.read(region_id, 1)
    );
}

#[test]
fn test_store_transient_failure_before_a_durable_object_poisons() {
    let mut sim = fresh(&eager());
    let region_id = region(1);
    let third = sim.entry(region_id, "a3");
    let appends = sim.start_many(region_id, 2);

    // Object 1 is durable while object 0 failed: object 1 cannot be rolled back, so the store
    // poisons itself and acknowledges neither.
    sim.fail_create(0);
    sim.create(1);
    let gap = Error::WalObjectHistoryGap {
        object_seq: 0,
        later_object_seq: 1,
    };
    for append in appends {
        assert_eq!(gap, unwrap_shared(sim.answer(append).unwrap_err()));
    }
    assert_eq!(vec![1], sim.object_seqs());
    let error = sim.store.latest_entry_id(&provider(region_id)).unwrap_err();
    assert_eq!(gap, unwrap_shared_store(error));
    let error = sim.store.append_batch(vec![third], 9, 0).unwrap_err();
    assert_eq!(gap, unwrap_shared_store(error));
    sim.stop().unwrap();

    // Recovery indexes the durable object.
    let mut sim = open(&sim.objects, &eager());
    assert_eq!(id(1, 1), sim.latest(region_id));
    assert_eq!(entries(&[(id(1, 1), "a2")]), sim.read(region_id, 1));
}

#[test]
fn test_store_permanent_failure_before_a_durable_object_poisons() {
    let mut sim = fresh(&eager());
    let region_id = region(1);
    sim.objects.insert(0, b"foreign".to_vec());
    let appends = sim.start_many(region_id, 2);

    // Object 1 is created; object 0 conflicts with the foreign object.
    sim.create(1);
    assert_eq!(vec![0, 1], sim.object_seqs());
    assert!(appends.iter().all(|append| !sim.is_answered(*append)));
    sim.create(0);
    let conflict = Error::WalObjectConflict { object_seq: 0 };
    for append in appends {
        assert_eq!(conflict, unwrap_shared(sim.answer(append).unwrap_err()));
    }
    let error = sim.store.latest_entry_id(&provider(region_id)).unwrap_err();
    assert_eq!(conflict, unwrap_shared_store(error));
    sim.stop().unwrap();
}

#[test]
fn test_store_enqueued_append_returns_before_the_object_exists() {
    let mut sim = fresh(&enqueued(manual()));
    let region_id = region(1);

    assert_eq!(Ok(ids(&[(region_id, 1)])), sim.append(region_id, "a1"));
    assert!(sim.object_seqs().is_empty());
    assert_eq!(0, sim.latest(region_id));
    assert_eq!(Ok(0), sim.store.durable_entry_id(&provider(region_id)));
    assert!(sim.read(region_id, 1).is_empty());
    assert_eq!(Ok(ids(&[(region_id, 2)])), sim.append(region_id, "a2"));

    sim.seal();
    assert_eq!(vec![0], sim.object_seqs());
    assert_eq!(2, sim.latest(region_id));
    assert_eq!(Ok(2), sim.store.durable_entry_id(&provider(region_id)));
    assert_eq!(entries(&[(1, "a1"), (2, "a2")]), sim.read(region_id, 1));
}

#[test]
fn test_store_enqueued_durable_id_advances_after_create_and_indexing() {
    let mut sim = fresh(&enqueued(eager()));
    let region_one = region(1);
    let region_two = region(2);

    let append = sim.start(region_one, "a1");
    assert_eq!(Ok(ids(&[(region_one, 1)])), sim.answer(append));
    assert_eq!(Ok(0), sim.store.durable_entry_id(&provider(region_one)));
    let wait_one = sim.start_wait(region_one, 1);
    // The other region has nothing pending, and neither has an id the store never handed out.
    let wait = sim.start_wait(region_two, 0);
    sim.answer(wait).unwrap();
    let wait = sim.start_wait(region_one, 7);
    sim.answer(wait).unwrap();
    assert!(!sim.is_answered(wait_one));

    sim.create(0);
    sim.answer(wait_one).unwrap();
    assert_eq!(Ok(1), sim.store.durable_entry_id(&provider(region_one)));
    assert_eq!(Ok(0), sim.store.durable_entry_id(&provider(region_two)));
    assert_eq!(vec![0], sim.object_seqs());
}

#[test]
fn test_store_enqueued_obsolete_never_passes_the_durable_id() {
    let mut sim = fresh(&enqueued(manual()));
    let region_id = region(1);
    sim.append(region_id, "a1").unwrap();
    sim.append(region_id, "a2").unwrap();

    sim.start_obsolete(region_id, 2).unwrap();
    assert_eq!(Some(0), sim.watermark(region_id));
    sim.seal();
    assert_eq!(entries(&[(1, "a1"), (2, "a2")]), sim.read(region_id, 1));
    sim.start_obsolete(region_id, 2).unwrap();
    assert_eq!(Some(2), sim.watermark(region_id));
    assert!(sim.read(region_id, 1).is_empty());
}

/// Appends one entry in the enqueued mode, then a second one `age` later that the backlog threshold
/// must stall. Returns the store and the stalled append.
fn stall_second_append(config: ObjectStoreWalConfig, age: u64) -> (Sim, u64) {
    let mut sim = fresh(&config);
    let region_id = region(1);
    let first = sim.start(region_id, "a1");
    assert_eq!(Ok(ids(&[(region_id, 1)])), sim.answer(first));
    sim.now += age;
    let stalled = sim.start(region_id, "a2");
    // The stall seals the open batch so that an upload is in flight.
    assert_eq!(vec![0], sim.creates);
    assert!(!sim.is_answered(stalled));
    (sim, stalled)
}

#[test]
fn test_store_enqueued_backlog_bytes_stall_admission_until_an_upload_completes() {
    let config = ObjectStoreWalConfig {
        max_unpersisted_bytes: 1,
        ..enqueued(manual())
    };
    let (mut sim, stalled) = stall_second_append(config, 0);
    let region_id = region(1);
    // Two more appends queue behind the stalled one.
    let third = sim.start(region_id, "a3");
    let fourth = sim.start(region_id, "a4");
    assert!(!sim.is_answered(third) && !sim.is_answered(fourth));
    assert_eq!(vec![0], sim.creates);

    // The upload releases the second append, whose entry reaches the threshold again; the stall
    // seals it so that the next upload can release the third, and so on.
    sim.create(0);
    assert_eq!(Ok(ids(&[(region_id, id(1, 1))])), sim.answer(stalled));
    assert_eq!(vec![0], sim.object_seqs());
    assert_eq!(1, sim.latest(region_id));
    for (append, object_seq) in [(third, 1), (fourth, 2)] {
        sim.create(object_seq);
        assert_eq!(Ok(ids(&[(region_id, id(object_seq + 1, 1))])), sim.answer(append));
    }
    assert_eq!(vec![0, 1, 2], sim.object_seqs());
    assert_eq!(
        entries(&[(1, "a1"), (id(1, 1), "a2"), (id(2, 1), "a3")]),
        sim.read(region_id, 1)
    );
}

#[test]
fn test_store_enqueued_backlog_age_stalls_admission_until_an_upload_completes() {
    let config = ObjectStoreWalConfig {
        max_unpersisted_age: 50_000_000,
        ..enqueued(manual())
    };
    let (mut sim, stalled) = stall_second_append(config, 100_000_000);
    let region_id = region(1);

    sim.create(0);
    assert_eq!(Ok(ids(&[(region_id, id(1, 1))])), sim.answer(stalled));
    assert_eq!(vec![0], sim.object_seqs());
    assert_eq!(entries(&[(1, "a1")]), sim.read(region_id, 1));
    // A young open batch does not stall.
    let append = sim.start(region_id, "a3");
    sim.answer(append).unwrap();
}

#[test]
fn test_store_enqueued_repeats_a_create_that_failed_transiently() {
    let mut sim = fresh(&enqueued(eager()));
    let region_id = region(1);

    let append = sim.start(region_id, "a1");
    assert_eq!(Ok(ids(&[(region_id, 1)])), sim.answer(append));
    let wait = sim.start_wait(region_id, 1);
    assert_eq!(0, sim.delayed);
    sim.fail_create(0);
    // The create is repeated after a delay, with the same bytes.
    assert_eq!(vec![0], sim.creates);
    assert_eq!(1, sim.delayed);
    sim.create(0);
    sim.answer(wait).unwrap();
    assert_eq!(vec![0], sim.object_seqs());
    assert_eq!(entries(&[(1, "a1")]), sim.read(region_id, 1));
}

#[test]
fn test_store_enqueued_permanent_failure_poisons() {
    let mut sim = fresh(&enqueued(eager()));
    let region_id = region(1);
    sim.objects.insert(0, b"foreign".to_vec());

    // The append was acknowledged; the conflict surfaces afterwards.
    let second = sim.entry(region_id, "a2");
    let append = sim.start(region_id, "a1");
    sim.answer(append).unwrap();
    let wait = sim.start_wait(region_id, 1);
    sim.create(0);
    let conflict = Error::WalObjectConflict { object_seq: 0 };
    assert_eq!(conflict, unwrap_shared(sim.answer(wait).unwrap_err()));
    let error = sim.store.append_batch(vec![second], 9, 0).unwrap_err();
    assert_eq!(conflict, unwrap_shared_store(error));
    assert!(sim.store.latest_entry_id(&provider(region_id)).is_err());
    // The acknowledged entry was dropped, which stop reports.
    assert_eq!(conflict, unwrap_shared(sim.stop().unwrap_err()));
}

#[test]
fn test_store_enqueued_stop_reports_a_backlog_lost_before_the_stop_command() {
    let mut sim = fresh(&enqueued(manual()));
    let region_id = region(1);
    sim.append(region_id, "a1").unwrap();
    let seal = sim.start_seal();

    // Stop began, but the stop command has not been handled when the create fails: the backlog is
    // dropped and the failure is kept for the stop that follows.
    sim.store.begin_stop();
    sim.fail_create(0);
    assert_eq!(Err(STOPPED), sim.answer(seal));
    // The lost entry cannot be certified as durable; a durable id still is.
    let lost = transient(StoreOperation::Write, 0);
    let wait = sim.start_wait(region_id, 1);
    assert_eq!(lost, unwrap_shared(sim.answer(wait).unwrap_err()));
    let wait = sim.start_wait(region_id, 0);
    sim.answer(wait).unwrap();
    assert_eq!(lost, unwrap_shared(sim.stop().unwrap_err()));
    assert!(sim.object_seqs().is_empty());
    assert!(sim.creates.is_empty());
}

#[test]
fn test_store_enqueued_stop_uploads_the_backlog() {
    let mut sim = fresh(&enqueued(manual()));
    let region_id = region(1);
    sim.append(region_id, "a1").unwrap();
    sim.append(region_id, "a2").unwrap();
    assert!(sim.object_seqs().is_empty());

    sim.stop().unwrap();
    assert_eq!(vec![0], sim.object_seqs());
    assert_eq!(2, sim.latest(region_id));
    assert_eq!(entries(&[(1, "a1"), (2, "a2")]), sim.read(region_id, 1));

    // A backlog that cannot be uploaded is reported by stop.
    let mut sim = fresh(&enqueued(manual()));
    sim.append(region_id, "a1").unwrap();
    let stop = sim.start_stop();
    assert_eq!(vec![0], sim.creates);
    sim.fail_create(0);
    assert_eq!(
        transient(StoreOperation::Write, 0),
        unwrap_shared(sim.answer(stop).unwrap_err())
    );
    assert!(sim.object_seqs().is_empty());
    sim.stop_again().unwrap();
}

#[test]
fn test_store_collects_objects_below_the_watermarks() {
    let mut sim = fresh(&enqueued(manual()));
    let region_one = region(1);
    let region_two = region(2);
    // Object 0 holds one entry of each region, object 1 two entries of region one, object 2 one of
    // region two and object 3 one of region one.
    let batch = vec![sim.entry(region_one, "a1"), sim.entry(region_two, "b1")];
    sim.append_batch(batch).unwrap();
    sim.seal();
    let batch = vec![sim.entry(region_one, "a2"), sim.entry(region_one, "a3")];
    sim.append_batch(batch).unwrap();
    sim.seal();
    sim.append(region_two, "b2").unwrap();
    sim.seal();
    sim.append(region_one, "a4").unwrap();
    sim.seal();
    assert_eq!(vec![0, 1, 2, 3], sim.object_seqs());

    // A watermark inside object 1 keeps it, and object 0 holds a segment of a region without a
    // watermark.
    sim.obsolete_and_collect(region_one, id(1, 1));
    assert_eq!(vec![0, 1, 2, 3], sim.object_seqs());
    // A watermark at the last id of its segment releases object 1.
    sim.obsolete_and_collect(region_one, id(1, 2));
    assert_eq!(vec![0, 2, 3], sim.object_seqs());
    // Object 0 goes once both regions are at or above their segments; object 2 lies above the
    // watermark of region two.
    sim.obsolete_and_collect(region_two, id(0, 1));
    assert_eq!(vec![2, 3], sim.object_seqs());
    sim.obsolete_and_collect(region_two, id(2, 1));
    assert_eq!(vec![3], sim.object_seqs());
    // The highest-sequence object is kept whatever the watermark.
    sim.obsolete_and_collect(region_one, id(3, 1));
    assert_eq!(vec![3], sim.object_seqs());
    assert!(!sim.store.is_collected(3) && sim.store.is_collected(2));

    // The largest id of a region outlives its last object.
    assert!(sim.read(region_one, 0).is_empty());
    assert!(sim.read(region_two, 0).is_empty());
    assert_eq!(id(3, 1), sim.latest(region_one));
    assert_eq!(id(2, 1), sim.latest(region_two));
    let wait = sim.start_wait(region_two, id(2, 1));
    sim.answer(wait).unwrap();
    assert_eq!(vec![provider(region_one)], sim.store.list_namespaces().unwrap());
    assert_eq!(Ok(ids(&[(region_two, id(4, 1))])), sim.append(region_two, "b3"));
    sim.seal();
    assert_eq!(vec![3, 4], sim.object_seqs());
    assert_eq!(entries(&[(id(4, 1), "b3")]), sim.read(region_two, 0));
}

#[test]
fn test_store_keeps_an_object_that_is_created_but_not_indexed() {
    let mut sim = fresh(&eager());
    let region_id = region(1);
    sim.append(region_id, "a1").unwrap();

    // Object 2 is created while object 1 is still in flight, so it is not indexed yet.
    let appends = sim.start_many(region_id, 2);
    sim.create(2);
    assert_eq!(vec![0, 2], sim.object_seqs());
    assert_eq!(id(0, 1), sim.latest(region_id));

    // Object 0 is the highest indexed object: it is kept although an object above it exists.
    sim.obsolete_and_collect(region_id, id(0, 1));
    assert_eq!(vec![0, 2], sim.object_seqs());

    // Once objects 1 and 2 are indexed the next collection releases it.
    sim.create(1);
    for append in appends {
        sim.answer(append).unwrap();
    }
    assert_eq!(id(2, 1), sim.latest(region_id));
    sim.obsolete_and_collect(region_id, id(0, 1));
    assert_eq!(vec![1, 2], sim.object_seqs());
    sim.obsolete_and_collect(region_id, id(2, 1));
    assert_eq!(vec![2], sim.object_seqs());
}

#[test]
fn test_store_holds_collection_on_a_prefix_with_contiguous_ids() {
    let region_one = region(1);
    let region_two = region(2);
    let mut sim = open(&contiguous_objects(), &eager());

    // Every object is below its watermark, but id 5_000_000 names object 4, beyond the highest
    // object: object 2 alone could not resume the sequence above every id ever written, so nothing
    // is collected.
    sim.obsolete_and_collect(region_one, 5_000_000);
    sim.obsolete_and_collect(region_two, 1);
    assert_eq!(vec![0, 1, 2], sim.object_seqs());

    // The first object written at the raised sequence is durable: from then on it is the retained
    // anchor and the old objects go.
    assert_eq!(Ok(ids(&[(region_two, id(5, 1))])), sim.append(region_two, "b"));
    assert_eq!(vec![0, 1, 2, 5], sim.object_seqs());
    sim.obsolete_and_collect(region_two, id(5, 1));
    assert_eq!(vec![5], sim.object_seqs());
    assert_eq!(5_000_000, sim.latest(region_one));
    assert!(sim.read(region_one, 0).is_empty());
    sim.stop().unwrap();

    // Recovery resumes after the retained object, above every old id.
    let mut sim = open(&sim.objects, &eager());
    assert_eq!(0, sim.latest(region_one));
    assert_eq!(id(5, 1), sim.latest(region_two));
    assert_eq!(Ok(ids(&[(region_one, id(6, 1))])), sim.append(region_one, "a"));
    assert!(id(6, 1) > 5_000_000);
    assert_eq!(vec![5, 6], sim.object_seqs());
    assert_eq!(entries(&[(id(6, 1), "a")]), sim.read(region_one, 0));
}

#[test]
fn test_store_read_started_before_collection_skips_a_deleted_object() {
    let mut sim = fresh(&eager());
    let region_id = region(1);
    for data in ["a1", "a2", "a3"] {
        sim.append(region_id, data).unwrap();
    }

    // The read lists objects 0 to 2 before objects 0 and 1 are collected, and skips them when it
    // gets there.
    let plan = sim.store.plan_read(&provider(region_id), 1).unwrap();
    sim.obsolete_and_collect(region_id, id(1, 1));
    assert_eq!(vec![2], sim.object_seqs());
    let read = sim.finish_read(region_id, plan.start_entry_id, plan.objects);
    assert_eq!(Ok(entries(&[(id(2, 1), "a3")])), read);

    // An object that is missing while still indexed fails the read.
    sim.append(region_id, "a4").unwrap();
    assert_eq!(vec![2, 3], sim.object_seqs());
    sim.objects.remove(&2);
    assert!(!sim.store.is_collected(2));
    let error = sim.try_read(region_id, id(1, 1) + 1).unwrap_err();
    assert_eq!(transient(StoreOperation::Read, 2), error);
}

#[test]
fn test_store_failed_delete_lets_the_read_error_take_its_normal_path() {
    let region_id = region(1);
    for action in [CorruptedSegmentAction::Skip, CorruptedSegmentAction::Fail] {
        for corrupted in [false, true] {
            let mut sim = fresh(&on_corruption(action, eager()));
            sim.append(region_id, "a1").unwrap();
            sim.append(region_id, "a2").unwrap();

            // The read meets object 0 while its delete is pending.
            let plan = sim.store.plan_read(&provider(region_id), 1).unwrap();
            sim.start_obsolete(region_id, id(0, 1)).unwrap();
            assert_eq!(vec![0], sim.deletes);
            assert!(sim.store.is_deleting(0));
            if corrupted {
                sim.damage_reads_of = Some(0);
                sim.damaged_reads = usize::MAX;
            } else {
                sim.fail_reads_of = Some(0);
            }

            // The delete fails, so the object stays present and indexed and the error the read met
            // is reported rather than hidden.
            sim.delete(0, false);
            assert!(!sim.store.is_deleting(0));
            let read = sim.finish_read(region_id, plan.start_entry_id, plan.objects);
            match (corrupted, action) {
                (false, _) => {
                    assert_eq!(Err(transient(StoreOperation::Read, 0)), read);
                    assert!(sim.holes(region_id).is_empty());
                }
                (true, CorruptedSegmentAction::Skip) => {
                    assert_eq!(Ok(entries(&[(id(1, 1), "a2")])), read);
                    assert_eq!(
                        vec![WalHole {
                            path: path(0),
                            object_seq: 0,
                            min_entry_id: 1,
                            max_entry_id: 1,
                        }],
                        sim.holes(region_id)
                    );
                }
                (true, CorruptedSegmentAction::Fail) => {
                    assert_invalid_object(
                        read.unwrap_err(),
                        0,
                        "segment of region 4294967297(1, 1) checksum mismatch",
                    );
                    assert!(sim.holes(region_id).is_empty());
                }
            }
            assert!(!sim.store.is_collected(0));
            assert_eq!(vec![0, 1], sim.object_seqs());
        }
    }
}

#[test]
fn test_store_retries_a_failed_delete_at_the_next_collection() {
    let mut sim = fresh(&eager());
    let region_id = region(1);
    sim.append(region_id, "a1").unwrap();
    sim.append(region_id, "a2").unwrap();

    // The delete fails: the object stays, indexed.
    sim.start_obsolete(region_id, id(0, 1)).unwrap();
    sim.delete(0, false);
    assert_eq!(vec![0, 1], sim.object_seqs());
    assert!(!sim.store.is_collected(0));

    // The next collection deletes it, once however often it is asked for.
    sim.start_obsolete(region_id, id(0, 1)).unwrap();
    sim.start_obsolete(region_id, id(0, 1)).unwrap();
    assert_eq!(vec![0], sim.deletes);
    sim.collect();
    assert_eq!(vec![1], sim.object_seqs());
    assert!(sim.store.is_collected(0));
}

#[test]
fn test_store_does_not_collect_after_stop_began() {
    let mut sim = fresh(&eager());
    let region_id = region(1);
    sim.append(region_id, "a1").unwrap();
    sim.append(region_id, "a2").unwrap();

    // Stop began but the store has not exited: the watermark is recorded and nothing is collected.
    sim.store.begin_stop();
    sim.obsolete_and_collect(region_id, id(0, 1));
    assert_eq!(Some(id(0, 1)), sim.watermark(region_id));
    assert_eq!(vec![0, 1], sim.object_seqs());
    sim.stop().unwrap();
    assert_eq!(vec![0, 1], sim.object_seqs());

    // After the store exited a watermark is recorded alone.
    sim.store.obsolete_after_exit(region_id, id(1, 1));
    assert_eq!(vec![0, 1], sim.object_seqs());
    assert!(sim.read(region_id, 0).is_empty());
}

#[test]
fn test_store_stop_waits_for_a_delete_in_flight() {
    let mut sim = fresh(&eager());
    let region_id = region(1);
    sim.append(region_id, "a1").unwrap();
    sim.append(region_id, "a2").unwrap();

    // The delete of object 0 is in flight when stop is requested: stop waits for it, and the
    // object is unindexed before stop returns.
    sim.start_obsolete(region_id, id(0, 1)).unwrap();
    assert_eq!(vec![0], sim.deletes);
    let stop = sim.start_stop();
    assert!(!sim.is_answered(stop));
    assert!(!sim.store.is_collected(0));

    sim.delete(0, true);
    sim.answer(stop).unwrap();
    assert!(sim.store.is_collected(0));
    assert_eq!(vec![1], sim.object_seqs());
    assert!(sim.deletes.is_empty());
}

#[test]
fn object_keys_are_recognised() {
    let prefix = "wal".to_string();
    assert_eq!(
        "wal/objects/00000000000000000000.wal",
        object_path(&prefix, 0)
    );
    assert_eq!(
        "wal/objects/18446744073709551615.wal",
        object_path(&prefix, u64::MAX)
    );
    for object_seq in [0, 7, 1 << 44, u64::MAX] {
        let path = object_path(&prefix, object_seq);
        assert_eq!(Some(object_seq), object_seq_of(&prefix, &path));
        assert_eq!(None, object_seq_of(&"other".to_string(), &path));
    }
    for key in [
        "",
        "wal/objects/0.wal",
        "wal/objects/0000000000000000000a.wal",
        "wal/objects/18446744073709551616.wal",
        "wal/objects/00000000000000000000.tmp",
        "wal/objects/00000000000000000000.wal.wal",
        "wal/other/00000000000000000000.wal",
    ] {
        assert_eq!(None, object_seq_of(&prefix, &key.to_string()), "{key}");
    }
    assert_eq!(path(4), fresh(&manual()).store.path(4));
}

#[test]
fn conditional_creates_are_settled_by_content() {
    let bytes = b"object";
    let found = |content: &[u8]| ReadBack::Found(content.to_vec());
    let failed = PutOutcome::Failed { cause: 3 };
    let created = settle_create(5, bytes, PutOutcome::Created, ReadBack::Absent);
    assert_eq!(Ok(()), created);
    assert_eq!(Ok(()), settle_create(5, bytes, PutOutcome::Exists, found(bytes)));
    assert_eq!(Ok(()), settle_create(5, bytes, failed, found(bytes)));
    let conflict = Err(Error::WalObjectConflict { object_seq: 5 });
    assert_eq!(conflict, settle_create(5, bytes, PutOutcome::Exists, found(b"objecu")));
    assert_eq!(conflict, settle_create(5, bytes, failed, found(b"foreign")));
    let transient = |operation, cause| {
        Err(Error::WalObjectStore {
            operation,
            object_seq: 5,
            cause,
        })
    };
    assert_eq!(
        transient(StoreOperation::Write, 3),
        settle_create(5, bytes, failed, ReadBack::Absent)
    );
    assert_eq!(
        transient(StoreOperation::Write, 3),
        settle_create(5, bytes, failed, ReadBack::Failed { cause: 4 })
    );
    assert_eq!(
        transient(StoreOperation::Read, 4),
        settle_create(5, bytes, PutOutcome::Exists, ReadBack::Failed { cause: 4 })
    );
}

#[test]
fn acknowledged_entries_are_read_back_under_the_ids_counted_from_the_last() {
    for (config, sealed_by_hand) in [(eager(), false), (enqueued(manual()), true)] {
        let mut sim = fresh(&config);
        let batch = vec![
            sim.entry(region(1), "a"),
            sim.entry(region(2), "b"),
            sim.entry(region(1), "c"),
            sim.entry(region(1), "d"),
        ];
        let last = sim.append_batch(batch).unwrap();
        if sealed_by_hand {
            assert!(sim.read(region(1), 0).is_empty());
            sim.seal();
        }
        let one = last[&region(1).as_u64()];
        let two = last[&region(2).as_u64()];
        assert_eq!(id(0, 3), one);
        assert_eq!(
            entries(&[(one - 2, "a"), (one - 1, "c"), (one, "d")]),
            sim.read(region(1), 0)
        );
        assert_eq!(entries(&[(two, "b")]), sim.read(region(2), 0));
        // What is asked for and the watermark decide what is returned.
        assert_eq!(entries(&[(one, "d")]), sim.read(region(1), one));
        sim.start_obsolete(region(1), one - 2).unwrap();
        assert_eq!(entries(&[(one - 1, "c"), (one, "d")]), sim.read(region(1), 0));
        // A restart finds the same entries.
        let mut again = open(&sim.objects, &config);
        assert_eq!(
            entries(&[(one - 2, "a"), (one - 1, "c"), (one, "d")]),
            again.read(region(1), 0)
        );
    }
}

#[test]
fn latest_id_is_kept_when_entries_become_obsolete_and_are_collected() {
    let mut sim = fresh(&eager());
    sim.append(region(1), "a").unwrap();
    sim.append(region(1), "b").unwrap();
    sim.append(region(2), "c").unwrap();
    let latest = sim.latest(region(1));
    assert_eq!(id(1, 1), latest);
    sim.obsolete_and_collect(region(1), latest);
    assert_eq!(vec![2], sim.objects.keys().copied().collect::<Vec<u64>>());
    assert_eq!(latest, sim.latest(region(1)));
    assert!(sim.read(region(1), 0).is_empty());
    sim.store
        .obsolete_all(&provider(region(1)), region(1))
        .unwrap();
    assert_eq!(latest, sim.latest(region(1)));
}

#[test]
fn stop_succeeds_on_a_store_that_failed() {
    let mut sim = fresh(&eager());
    let waiter = sim.start(region(1), "a");
    sim.objects.insert(0, b"foreign".to_vec());
    sim.run();
    assert_eq!(
        Error::WalObjectConflict { object_seq: 0 },
        unwrap_shared(sim.answer(waiter).unwrap_err())
    );
    let first = sim.start_stop();
    assert_eq!(Ok(HashMap::new()), sim.answer(first));
    let error = sim.store.append_batch(Vec::new(), 90, 0).unwrap_err();
    assert_eq!(StoreError::Own(Error::ObjectStoreWalStopped), error);
    assert!(sim.creates.is_empty());
}

#[test]
fn stop_starts_no_create_and_acknowledges_what_is_in_flight() {
    let mut sim = fresh(&eager());
    let waiters = sim.start_many(region(1), MAX_IN_FLIGHT_CREATES + 1);
    assert_eq!(vec![0, 1, 2, 3], sim.creates);
    let stop = sim.start_stop();
    // The batch that was not started is dropped at once.
    assert_eq!(Err(STOPPED), sim.answer(waiters[MAX_IN_FLIGHT_CREATES]));
    sim.create(2);
    sim.create(0);
    assert_eq!(ids(&[(region(1), id(0, 1))]), sim.answer(waiters[0]).unwrap());
    assert!(!sim.is_answered(waiters[2]));
    // A later create that fails keeps no earlier one from being acknowledged.
    sim.fail_create(3);
    sim.create(1);
    assert_eq!(ids(&[(region(1), id(1, 1))]), sim.answer(waiters[1]).unwrap());
    assert_eq!(ids(&[(region(1), id(2, 1))]), sim.answer(waiters[2]).unwrap());
    assert_eq!(Err(STOPPED), sim.answer(waiters[3]));
    assert_eq!(Ok(HashMap::new()), sim.answer(stop));
    assert!(sim.creates.is_empty());
}

#[test]
fn an_acknowledgement_names_the_regions_of_the_append_only() {
    let mut sim = fresh(&manual());
    let one = sim.start(region(1), "a");
    let two = sim.start(region(2), "b");
    let again = vec![sim.entry(region(1), "c"), sim.entry(region(1), "d")];
    let three = sim.start_batch(again);
    sim.seal();
    assert_eq!(ids(&[(region(1), id(0, 1))]), sim.answer(one).unwrap());
    assert_eq!(ids(&[(region(2), id(0, 1))]), sim.answer(two).unwrap());
    assert_eq!(ids(&[(region(1), id(0, 3))]), sim.answer(three).unwrap());
    assert_eq!(Ok(HashMap::new()), sim.append_batch(Vec::new()));
}

#[test]
fn entries_that_are_read_take_the_memory_of_their_data() {
    let records = vec![
        Record {
            region_id: region(1),
            entry_id: 4,
            payload: b"abc".to_vec(),
        },
        Record {
            region_id: region(1),
            entry_id: 5,
            payload: Vec::new(),
        },
    ];
    let read = entries_from(records, &provider(region(1)), region(1), 0);
    assert_eq!(3, read[0].estimated_size);
    assert_eq!(0, read[1].estimated_size);
    assert!(read[0].complete);
}
