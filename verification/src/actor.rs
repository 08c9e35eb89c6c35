//! The actor that owns the open batch and the sealed batches until they are durable.
//!
//! The actor performs no request itself. It is told what happened, and lists what is to be done:
//! objects to create and delete, and waiters to answer.
use std::collections::{HashMap, VecDeque};

use vstd::prelude::*;
use vstd::std_specs::hash::*;

use crate::actor_model::{
    acknowledge, answer_all, answer_durable, entry_records, fail_durable, fail_pending, fail_sealed,
    fail_stalled, find_seq, find_state, in_flight, larger, largest_failed, lemma_first_place,
    lemma_flush_seals, lemma_no_place, lemma_take_in_keeps_stalled, not_deleting, raise_issued,
    raise_watermark, sealed_bytes, still_waiting, AckMode, ActionModel, ActorModel, CreateState,
    DurableWaiter, PendingModel, SealedModel, StalledModel, MAX_IN_FLIGHT_CREATES,
};
use crate::batch::{largest_id, saturated, ObjectBatch, ObjectBatchModel};
use crate::catalog::{lemma_deletable, CatalogModel, ObjectCatalog};
use crate::error::{Error, Failure};
use crate::format::{
    encode_object, footer_of, grouped, object_bytes, record_models, unencodable, EncodedObject,
    FooterEntry, Header, Record,
};
use crate::id::{sequence_floor, EntryId, RegionId, OBJECT_SEQ_LIMIT};
use crate::logstore::{
    count_region, lemma_count_positive, total_size, AppendBatchResponse, Entry,
};
use crate::ordmap::{strictly_increasing, OrdMap};

verus! {

broadcast use group_hash_axioms;

/// Something the actor asks to be done.
#[allow(inconsistent_fields)]
#[derive(Debug)]
pub enum Action {
    /// Answer an append.
    AnswerAppend { waiter: u64, result: Result<AppendBatchResponse, Failure> },
    /// Answer any other request.
    Answer { waiter: u64, result: Result<(), Failure> },
    /// Create the object, after a delay if the create is repeated.
    Create { object_seq: u64, delayed: bool },
    /// Delete the object.
    Delete { object_seq: u64 },
}

impl View for Action {
    type V = ActionModel;

    open spec fn view(&self) -> ActionModel {
        match self {
            Action::AnswerAppend { waiter, result } => ActionModel::AnswerAppend {
                waiter: *waiter,
                result: match result {
                    Ok(response) => Ok(response.last_entry_ids@),
                    Err(failure) => Err(*failure),
                },
            },
            Action::Answer { waiter, result } => ActionModel::Answer {
                waiter: *waiter,
                result: *result,
            },
            Action::Create { object_seq, delayed } => ActionModel::Create {
                object_seq: *object_seq,
                delayed: *delayed,
            },
            Action::Delete { object_seq } => ActionModel::Delete { object_seq: *object_seq },
        }
    }
}

/// An append waiting for the object that holds its entries.
#[derive(Debug)]
struct PendingAppend {
    waiter: u64,
    last_entry_ids: HashMap<u64, EntryId>,
}

impl View for PendingAppend {
    type V = PendingModel;

    closed spec fn view(&self) -> PendingModel {
        PendingModel { waiter: self.waiter, last_ids: self.last_entry_ids@ }
    }
}

/// A sealed and encoded batch that holds its object sequence.
#[derive(Debug)]
struct SealedBatch {
    object_seq: u64,
    bytes: Vec<u8>,
    footer: Vec<FooterEntry>,
    first_admitted_at: Option<u64>,
    /// Number of creates that were attempted for the batch.
    attempts: u32,
    waiters: Vec<PendingAppend>,
    seal_waiters: Vec<u64>,
    state: CreateState,
}

impl View for SealedBatch {
    type V = SealedModel;

    closed spec fn view(&self) -> SealedModel {
        SealedModel {
            object_seq: self.object_seq,
            bytes: self.bytes@,
            footer: self.footer@,
            first_admitted_at: self.first_admitted_at,
            attempts: self.attempts,
            waiters: pending_models(self.waiters@),
            seal_waiters: self.seal_waiters@,
            state: self.state,
        }
    }
}

/// An append held back until the backlog shrinks.
#[derive(Debug)]
struct StalledAppend {
    entries: Vec<Entry>,
    waiter: u64,
}

impl View for StalledAppend {
    type V = StalledModel;

    closed spec fn view(&self) -> StalledModel {
        StalledModel { entries: self.entries@, waiter: self.waiter }
    }
}

spec fn pending_models(pending: Seq<PendingAppend>) -> Seq<PendingModel> {
    pending.map_values(|p: PendingAppend| p@)
}

spec fn sealed_models(sealed: Seq<SealedBatch>) -> Seq<SealedModel> {
    sealed.map_values(|b: SealedBatch| b@)
}

spec fn stalled_models(stalled: Seq<StalledAppend>) -> Seq<StalledModel> {
    stalled.map_values(|s: StalledAppend| s@)
}

/// What is to be done, in order.
pub open spec fn action_models(actions: Seq<Action>) -> Seq<ActionModel> {
    actions.map_values(|a: Action| a@)
}

/// The actor of one log prefix.
#[derive(Debug)]
pub struct Actor {
    ack_mode: AckMode,
    max_unpersisted_bytes: usize,
    max_unpersisted_age: u64,
    writer_instance: u128,
    catalog: ObjectCatalog,
    obsolete_entry_ids: HashMap<u64, EntryId>,
    terminal_error: Option<Error>,
    stopped: bool,
    open_batch: ObjectBatch,
    issued_entry_ids: HashMap<u64, EntryId>,
    pending: Vec<PendingAppend>,
    sealed: Vec<SealedBatch>,
    creates: Vec<u64>,
    draining: bool,
    stalled: VecDeque<StalledAppend>,
    durable_waiters: Vec<DurableWaiter>,
    stop: Vec<u64>,
    stop_error: Option<Error>,
    next_object_seq: Option<u64>,
    unresolved_object_seq: Option<u64>,
    deleting: OrdMap<()>,
    actions: Vec<Action>,
}

impl View for Actor {
    type V = ActorModel;

    closed spec fn view(&self) -> ActorModel {
        ActorModel {
            ack_mode: self.ack_mode,
            max_unpersisted_bytes: self.max_unpersisted_bytes as int,
            max_unpersisted_age: self.max_unpersisted_age as int,
            writer_instance: self.writer_instance,
            catalog: self.catalog@,
            obsolete: self.obsolete_entry_ids@,
            terminal: self.terminal_error,
            stopped: self.stopped,
            batch: self.open_batch@,
            issued: self.issued_entry_ids@,
            pending: pending_models(self.pending@),
            sealed: sealed_models(self.sealed@),
            creates: self.creates@,
            draining: self.draining,
            stalled: stalled_models(self.stalled@),
            durable_waiters: self.durable_waiters@,
            stop: self.stop@,
            stop_error: self.stop_error,
            next_object_seq: self.next_object_seq,
            unresolved_object_seq: self.unresolved_object_seq,
            deleting: self.deleting@.dom(),
            actions: action_models(self.actions@),
        }
    }
}

impl Actor {
    /// The parts are well-formed and every sequence fits an entry id.
    pub closed spec fn wf(&self) -> bool {
        &&& self.catalog.wf()
        &&& self.open_batch.wf()
        &&& self.deleting.wf()
        &&& self.next_object_seq matches Some(seq) ==> seq < OBJECT_SEQ_LIMIT
        &&& forall|i: int|
            0 <= i < self.sealed@.len() ==> (#[trigger] self.sealed@[i]).object_seq
                < OBJECT_SEQ_LIMIT
    }

    fn act(&mut self, action: Action)
        requires
            old(self).wf(),
        ensures
            final(self).wf(),
            final(self)@ == old(self)@.act(action@),
    {
        self.actions.push(action);
        assert(action_models(self.actions@) =~= old(self)@.actions.push(action@));
    }

    fn answer_append(&mut self, waiter: u64, failure: Failure)
        requires
            old(self).wf(),
        ensures
            final(self).wf(),
            final(self)@ == old(self)@.answer_append(waiter, Err(failure)),
    {
        self.act(Action::AnswerAppend { waiter, result: Err(failure) });
    }

    fn answer(&mut self, waiter: u64, result: Result<(), Failure>)
        requires
            old(self).wf(),
        ensures
            final(self).wf(),
            final(self)@ == old(self)@.answer(waiter, result),
    {
        self.act(Action::Answer { waiter, result });
    }

    /// How an entry that never became durable fails.
    fn failure(&self, error: Error) -> (failure: Failure)
        ensures
            failure == self@.failure(error),
    {
        if self.stopped {
            Failure::Own(Error::ObjectStoreWalStopped)
        } else {
            Failure::Shared(error)
        }
    }

    /// Records `error` as the terminal error unless one is already recorded, and returns the
    /// recorded one.
    fn set_terminal(&mut self, error: Error) -> (recorded: Error)
        requires
            old(self).wf(),
        ensures
            final(self).wf(),
            final(self)@ == old(self)@.set_terminal(error),
            final(self)@.terminal == Some(recorded),
    {
        match self.terminal_error {
            Some(recorded) => recorded,
            None => {
                self.terminal_error = Some(error);
                error
            },
        }
    }

    /// Records what stop reports once an acknowledged backlog was dropped.
    fn lose_backlog(&mut self, error: Error)
        requires
            old(self).wf(),
        ensures
            final(self).wf(),
            final(self)@ == old(self)@.lose_backlog(error),
    {
        if self.ack_mode == AckMode::Enqueued && self.stop_error.is_none() {
            self.stop_error = Some(error);
        }
    }

    /// Fails the waiters of the open batch, the stalled appends and the durability waiters.
    fn fail_unacknowledged(&mut self, failure: Failure)
        requires
            old(self).wf(),
        ensures
            final(self).wf(),
            final(self)@ == old(self)@.fail_unacknowledged(failure),
    {
        self.fail_pending_appends(failure);
        self.fail_stalled_appends(failure);
        self.fail_durable_waiters(failure);
    }

    /// Fails the waiters of the open batch.
    fn fail_pending_appends(&mut self, failure: Failure)
        requires
            old(self).wf(),
        ensures
            final(self).wf(),
            final(self)@ == (ActorModel {
                pending: Seq::empty(),
                ..old(self)@.act_all(fail_pending(old(self)@.pending, failure))
            }),
    {
        let ghost before = self@;
        let n: usize = self.pending.len();
        let mut i: usize = 0;
        assert(before.actions + fail_pending(before.pending.take(0), failure) =~= before.actions);
        while i < n
            invariant
                self.wf(),
                i <= n,
                n == before.pending.len(),
                self@ == before.act_all(fail_pending(before.pending.take(i as int), failure)),
            decreases n - i,
        {
            assert(self@.pending == before.pending);
            let waiter: u64 = self.pending[i].waiter;
            assert(self@.pending[i as int].waiter == waiter);
            self.answer_append(waiter, failure);
            proof {
                let more = fail_pending(before.pending.take(i + 1), failure);
                assert(more =~= fail_pending(before.pending.take(i as int), failure).push(
                    ActionModel::AnswerAppend { waiter, result: Err(failure) },
                ));
                assert(self@.actions =~= before.actions + more);
            }
            i = i + 1;
        }
        assert(before.pending.take(n as int) =~= before.pending);
        self.pending = Vec::new();
        assert(pending_models(self.pending@) =~= Seq::empty());
    }

    /// Fails the stalled appends.
    fn fail_stalled_appends(&mut self, failure: Failure)
        requires
            old(self).wf(),
        ensures
            final(self).wf(),
            final(self)@ == (ActorModel {
                stalled: Seq::empty(),
                ..old(self)@.act_all(fail_stalled(old(self)@.stalled, failure))
            }),
    {
        let ghost before = self@;
        let n: usize = self.stalled.len();
        let mut i: usize = 0;
        assert(before.actions + fail_stalled(before.stalled.take(0), failure) =~= before.actions);
        while i < n
            invariant
                self.wf(),
                i <= n,
                n == before.stalled.len(),
                self@ == before.act_all(fail_stalled(before.stalled.take(i as int), failure)),
            decreases n - i,
        {
            assert(self@.stalled == before.stalled);
            let waiter: u64 = self.stalled[i].waiter;
            assert(self@.stalled[i as int].waiter == waiter);
            self.answer_append(waiter, failure);
            proof {
                let more = fail_stalled(before.stalled.take(i + 1), failure);
                assert(more =~= fail_stalled(before.stalled.take(i as int), failure).push(
                    ActionModel::AnswerAppend { waiter, result: Err(failure) },
                ));
                assert(self@.actions =~= before.actions + more);
            }
            i = i + 1;
        }
        assert(before.stalled.take(n as int) =~= before.stalled);
        self.stalled = VecDeque::new();
        assert(stalled_models(self.stalled@) =~= Seq::empty());
    }

    /// Fails the durability waiters.
    fn fail_durable_waiters(&mut self, failure: Failure)
        requires
            old(self).wf(),
        ensures
            final(self).wf(),
            final(self)@ == (ActorModel {
                durable_waiters: Seq::empty(),
                ..old(self)@.act_all(fail_durable(old(self)@.durable_waiters, failure))
            }),
    {
        let ghost before = self@;
        let n: usize = self.durable_waiters.len();
        let mut i: usize = 0;
        assert(before.actions + fail_durable(before.durable_waiters.take(0), failure)
            =~= before.actions);
        while i < n
            invariant
                self.wf(),
                i <= n,
                n == before.durable_waiters.len(),
                self@ == before.act_all(
                    fail_durable(before.durable_waiters.take(i as int), failure),
                ),
            decreases n - i,
        {
            assert(self@.durable_waiters == before.durable_waiters);
            let waiter: u64 = self.durable_waiters[i].waiter;
            self.answer(waiter, Err(failure));
            proof {
                let more = fail_durable(before.durable_waiters.take(i + 1), failure);
                assert(more =~= fail_durable(before.durable_waiters.take(i as int), failure).push(
                    ActionModel::Answer { waiter, result: Err(failure) },
                ));
                assert(self@.actions =~= before.actions + more);
            }
            i = i + 1;
        }
        assert(before.durable_waiters.take(n as int) =~= before.durable_waiters);
        self.durable_waiters = Vec::new();
    }
}

/// Encodes the entries of a sealed batch as the object `object_seq`.
pub fn encode_batch(object_seq: u64, writer_instance: u128, entries: Vec<Entry>) -> (result: Result<
    EncodedObject,
    Error,
>)
    ensures
        match unencodable(entry_records(entries@)) {
            Some(reason) => result == Err::<EncodedObject, Error>(
                Error::UnencodableWalObject { reason },
            ),
            None => result matches Ok(object) && object.bytes@ == object_bytes(
                Header { object_seq, writer_instance },
                grouped(entry_records(entries@)),
            ) && object.footer@ == footer_of(grouped(entry_records(entries@))),
        },
{
    let ghost all = entries@;
    let mut records: Vec<Record> = Vec::new();
    for entry in it: entries
        invariant
            it.seq() == all,
            record_models(records@) == entry_records(all.take(it.index() as int)),
    {
        let ghost i = it.index() as int;
        let ghost before = records@;
        let record = Record {
            region_id: entry.region_id,
            entry_id: entry.entry_id,
            payload: entry.data,
        };
        records.push(record);
        proof {
            assert(record_models(records@) =~= record_models(before).push(record@));
            assert(entry_records(all.take(i + 1)) =~= entry_records(all.take(i)).push(record@));
        }
    }
    assert(all.take(all.len() as int) =~= all);
    match encode_object(Header { object_seq, writer_instance }, &records) {
        Ok(object) => Ok(object),
        Err(reason) => Err(Error::UnencodableWalObject { reason }),
    }
}

impl Actor {
    /// Fails the waiters of the sealed batches from place `from` on.
    fn fail_sealed_from(&mut self, from: usize, failure: Failure)
        requires
            old(self).wf(),
            from <= old(self)@.sealed.len(),
        ensures
            final(self).wf(),
            final(self)@ == old(self)@.act_all(
                fail_sealed(old(self)@.sealed.skip(from as int), failure),
            ),
    {
        let ghost before = self@;
        let ghost tail = before.sealed.skip(from as int);
        let n: usize = self.sealed.len();
        let mut i: usize = from;
        assert(before.actions + fail_sealed(tail.take(0), failure) =~= before.actions);
        while i < n
            invariant
                self.wf(),
                from <= i <= n,
                n == before.sealed.len(),
                tail == before.sealed.skip(from as int),
                self@ == before.act_all(fail_sealed(tail.take(i - from), failure)),
            decreases n - i,
        {
            self.fail_batch(i, failure);
            proof {
                let done = tail.take(i - from);
                let next = tail.take(i + 1 - from);
                assert(next.drop_last() =~= done);
                assert(next.last() == before.sealed[i as int]);
                assert(self@.actions =~= before.actions + fail_sealed(next, failure));
            }
            i = i + 1;
        }
        assert(tail.take(n - from) =~= tail);
    }

    /// Fails the waiters of the sealed batch at place `at`.
    fn fail_batch(&mut self, at: usize, failure: Failure)
        requires
            old(self).wf(),
            at < old(self)@.sealed.len(),
        ensures
            final(self).wf(),
            final(self)@ == old(self)@.act_all(
                fail_pending(old(self)@.sealed[at as int].waiters, failure),
            ).act_all(answer_all(old(self)@.sealed[at as int].seal_waiters, Err(failure))),
    {
        let ghost before = self@;
        let ghost batch = before.sealed[at as int];
        assert(self.sealed@[at as int]@ == batch);
        let n: usize = self.sealed[at].waiters.len();
        let mut i: usize = 0;
        assert(before.actions + fail_pending(batch.waiters.take(0), failure) =~= before.actions);
        while i < n
            invariant
                self.wf(),
                at < before.sealed.len(),
                batch == before.sealed[at as int],
                i <= n,
                n == batch.waiters.len(),
                self@ == before.act_all(fail_pending(batch.waiters.take(i as int), failure)),
            decreases n - i,
        {
            assert(self@.sealed == before.sealed);
            assert(self.sealed@[at as int]@ == batch);
            assert(pending_models(self.sealed@[at as int].waiters@)[i as int]
                == batch.waiters[i as int]);
            let waiter: u64 = self.sealed[at].waiters[i].waiter;
            self.answer_append(waiter, failure);
            proof {
                let more = fail_pending(batch.waiters.take(i + 1), failure);
                assert(more =~= fail_pending(batch.waiters.take(i as int), failure).push(
                    ActionModel::AnswerAppend { waiter, result: Err(failure) },
                ));
                assert(self@.actions =~= before.actions + more);
            }
            i = i + 1;
        }
        assert(batch.waiters.take(n as int) =~= batch.waiters);
        let ghost halfway = self@;
        assert(self@.sealed == before.sealed);
        assert(self.sealed@[at as int]@ == batch);
        let m: usize = self.sealed[at].seal_waiters.len();
        let mut j: usize = 0;
        assert(halfway.actions + answer_all(batch.seal_waiters.take(0), Err(failure))
            =~= halfway.actions);
        while j < m
            invariant
                self.wf(),
                at < before.sealed.len(),
                batch == before.sealed[at as int],
                halfway.sealed == before.sealed,
                j <= m,
                m == batch.seal_waiters.len(),
                self@ == halfway.act_all(
                    answer_all(batch.seal_waiters.take(j as int), Err(failure)),
                ),
            decreases m - j,
        {
            assert(self@.sealed == before.sealed);
            assert(self.sealed@[at as int]@ == batch);
            let waiter: u64 = self.sealed[at].seal_waiters[j];
            self.answer(waiter, Err(failure));
            proof {
                let more = answer_all(batch.seal_waiters.take(j + 1), Err(failure));
                assert(more =~= answer_all(batch.seal_waiters.take(j as int), Err(failure)).push(
                    ActionModel::Answer { waiter, result: Err(failure) },
                ));
                assert(self@.actions =~= halfway.actions + more);
            }
            j = j + 1;
        }
        assert(batch.seal_waiters.take(m as int) =~= batch.seal_waiters);
    }

    /// Drops every batch that is not durable and fails everything that is not acknowledged.
    fn drop_backlog(&mut self, failure: Failure)
        requires
            old(self).wf(),
        ensures
            final(self).wf(),
            final(self)@ == old(self)@.drop_backlog(failure),
    {
        self.draining = false;
        let ghost before = self@;
        self.fail_sealed_from(0, failure);
        assert(before.sealed.skip(0) =~= before.sealed);
        self.sealed = Vec::new();
        assert(sealed_models(self.sealed@) =~= Seq::empty());
        self.reset_open_batch();
        self.fail_unacknowledged(failure);
    }

    /// Drops the entries of the open batch; the next admission hands out the same ids again under
    /// the sequence the batch is at.
    fn reset_open_batch(&mut self)
        requires
            old(self).wf(),
        ensures
            final(self).wf(),
            final(self)@ == (ActorModel { batch: old(self)@.batch.cleared(), ..old(self)@ }),
    {
        self.open_batch.reset();
    }

    /// Records `error` as terminal and fails every waiter that is not acknowledged with it, or
    /// with the stopped error if the store was stopped meanwhile. Creates in flight run to
    /// completion, but their outcome is ignored. Returns the recorded error.
    fn poison(&mut self, error: Error) -> (recorded: Error)
        requires
            old(self).wf(),
        ensures
            final(self).wf(),
            final(self)@ == old(self)@.poison(error),
            final(self)@.terminal == Some(recorded),
            recorded == (match old(self)@.terminal {
                Some(first) => first,
                None => error,
            }),
    {
        proof {
            reveal(ActorModel::poison);
        }
        let recorded = self.set_terminal(error);
        let failure = self.failure(recorded);
        self.drop_backlog(failure);
        self.lose_backlog(recorded);
        recorded
    }

    /// The largest sequence among the batches that failed.
    fn largest_failed_seq(&self) -> (largest: Option<u64>)
        ensures
            largest == largest_failed(self@.sealed),
    {
        let ghost models = self@.sealed;
        let n: usize = self.sealed.len();
        let mut i: usize = 0;
        let mut largest: Option<u64> = None;
        assert(models.take(0) =~= Seq::empty());
        while i < n
            invariant
                models == self@.sealed,
                n == models.len(),
                i <= n,
                largest == largest_failed(models.take(i as int)),
            decreases n - i,
        {
            proof {
                assert(models.take(i + 1).drop_last() =~= models.take(i as int));
                assert(models[i as int] == self.sealed@[i as int]@);
            }
            if let CreateState::Failed(_) = self.sealed[i].state {
                let seq: u64 = self.sealed[i].object_seq;
                largest = larger_seq(largest, Some(seq));
            }
            i = i + 1;
        }
        assert(models.take(n as int) =~= models);
        largest
    }

    /// Drops every batch that is not durable after the batch `object_seq` failed to be created
    /// while no later object was created. Its sequence stays free and the entry ids are handed out
    /// again, so a retry of the same entries writes the same object.
    fn roll_back(&mut self, object_seq: u64, error: Error)
        requires
            old(self).wf(),
            object_seq < OBJECT_SEQ_LIMIT,
        ensures
            final(self).wf(),
            final(self)@ == old(self)@.roll_back(object_seq, error),
    {
        proof {
            reveal(ActorModel::roll_back);
        }
        let failed = self.largest_failed_seq();
        self.next_object_seq = Some(object_seq);
        self.unresolved_object_seq = larger_seq(self.unresolved_object_seq, failed);
        let failure = self.failure(error);
        self.drop_backlog(failure);
        self.lose_backlog(error);
    }

    /// The number of creates in flight.
    fn count_in_flight(&self) -> (count: usize)
        ensures
            count == in_flight(self@.sealed),
    {
        let ghost models = self@.sealed;
        let n: usize = self.sealed.len();
        let mut i: usize = 0;
        let mut count: usize = 0;
        assert(models.take(0) =~= Seq::empty());
        while i < n
            invariant
                models == self@.sealed,
                n == models.len(),
                i <= n,
                count <= i,
                count == in_flight(models.take(i as int)),
            decreases n - i,
        {
            proof {
                assert(models.take(i + 1).drop_last() =~= models.take(i as int));
                assert(models[i as int] == self.sealed@[i as int]@);
            }
            if self.sealed[i].state == CreateState::InFlight {
                count = count + 1;
            }
            i = i + 1;
        }
        assert(models.take(n as int) =~= models);
        count
    }

    /// Starts the creates of pending batches in sequence order while fewer than
    /// [`MAX_IN_FLIGHT_CREATES`] are in flight. Nothing starts once stop began, except the backlog
    /// of the enqueued mode.
    fn start_creates(&mut self)
        requires
            old(self).wf(),
        ensures
            final(self).wf(),
            final(self)@ == old(self)@.start_creates(),
    {
        proof {
            reveal(ActorModel::start_creates);
        }
        if self.draining || (self.stopped && self.ack_mode == AckMode::Durable) {
            return;
        }
        let mut running: usize = self.count_in_flight();
        let n: usize = self.sealed.len();
        let mut i: usize = 0;
        let ghost goal = self@.start_creates();
        while i < n && running < MAX_IN_FLIGHT_CREATES
            invariant
                self.wf(),
                i <= n,
                n == self@.sealed.len(),
                goal == self@.start_from(i as int, running as nat),
            decreases n - i,
        {
            let ghost before = self@;
            assert(before.sealed[i as int] == self.sealed@[i as int]@);
            if self.sealed[i].state == CreateState::Pending {
                let object_seq: u64 = self.sealed[i].object_seq;
                let attempts: u32 = self.sealed[i].attempts;
                self.sealed[i].state = CreateState::InFlight;
                self.sealed[i].attempts = attempts.saturating_add(1);
                self.creates.push(object_seq);
                proof {
                    let batch = before.sealed[i as int];
                    assert(self@.sealed =~= before.sealed.update(
                        i as int,
                        SealedModel {
                            state: CreateState::InFlight,
                            attempts: if batch.attempts == u32::MAX {
                                u32::MAX
                            } else {
                                (batch.attempts + 1) as u32
                            },
                            ..batch
                        },
                    ));
                }
                self.act(Action::Create { object_seq, delayed: attempts != 0 });
                running = running + 1;
            }
            i = i + 1;
        }
    }

    /// Seals the open batch as the object of the next sequence and starts its create when a slot
    /// is free. Returns whether a batch was sealed.
    pub fn flush_open_batch(&mut self) -> (sealed: bool)
        requires
            old(self).wf(),
        ensures
            final(self).wf(),
            final(self)@ == old(self)@.flush(),
            sealed <==> old(self)@.seals(),
    {
        proof {
            reveal(ActorModel::flush);
        }
        if self.open_batch.is_empty() {
            return false;
        }
        if let Some(error) = self.terminal_error {
            self.fail_unacknowledged(Failure::Shared(error));
            return false;
        }
        let object_seq: u64 = match self.next_object_seq {
            Some(object_seq) => object_seq,
            None => {
                self.poison(
                    Error::WalObjectSequenceExhausted { last_object_seq: OBJECT_SEQ_LIMIT - 1 },
                );
                return false;
            },
        };
        let ghost before = self@;
        let (entries, first_admitted_at) = self.open_batch.seal();
        let encoded = match encode_batch(object_seq, self.writer_instance, entries) {
            Ok(encoded) => encoded,
            Err(error) => {
                self.poison(error);
                return false;
            },
        };
        if object_seq + 1 < OBJECT_SEQ_LIMIT {
            self.next_object_seq = Some(object_seq + 1);
        } else {
            self.next_object_seq = None;
            self.terminal_error = Some(
                Error::WalObjectSequenceExhausted { last_object_seq: object_seq },
            );
        }
        let mut waiters: Vec<PendingAppend> = Vec::new();
        std::mem::swap(&mut waiters, &mut self.pending);
        let batch = SealedBatch {
            object_seq,
            bytes: encoded.bytes,
            footer: encoded.footer,
            first_admitted_at,
            attempts: 0,
            waiters,
            seal_waiters: Vec::new(),
            state: CreateState::Pending,
        };
        let ghost sealed_before = self.sealed@;
        self.sealed.push(batch);
        proof {
            assert(pending_models(self.pending@) =~= Seq::empty());
            assert(batch@.seal_waiters =~= Seq::empty());
            assert(batch@ == before.sealed_batch(object_seq));
            assert(self@.sealed =~= before.sealed.push(batch@));
            assert forall|i: int| 0 <= i < self.sealed@.len() implies (
            #[trigger] self.sealed@[i]).object_seq < OBJECT_SEQ_LIMIT by {
                if i < sealed_before.len() {
                    assert(self.sealed@[i] == sealed_before[i]);
                }
            }
        }
        self.start_creates();
        true
    }
}

impl Actor {
    /// The number of bytes of the open batch and of every batch that is not durable, as far as it
    /// can be counted.
    fn backlog_bytes(&self) -> (bytes: usize)
        requires
            self.wf(),
        ensures
            bytes == saturated(self@.backlog_bytes()),
    {
        let ghost models = self@.sealed;
        let ghost open = total_size(self@.batch.entries);
        let n: usize = self.sealed.len();
        let mut bytes: usize = self.open_batch.estimated_bytes();
        let mut i: usize = 0;
        assert(models.take(0) =~= Seq::empty());
        while i < n
            invariant
                models == self@.sealed,
                n == models.len(),
                i <= n,
                bytes == saturated(open + sealed_bytes(models.take(i as int))),
            decreases n - i,
        {
            proof {
                assert(models.take(i + 1).drop_last() =~= models.take(i as int));
                assert(models[i as int] == self.sealed@[i as int]@);
            }
            bytes = bytes.saturating_add(self.sealed[i].bytes.len());
            i = i + 1;
        }
        assert(models.take(n as int) =~= models);
        bytes
    }

    /// Returns true once the unpersisted backlog, the open batch and every sealed batch that is
    /// not durable, reaches the size or the age threshold.
    fn backlog_at_threshold(&self, now: u64) -> (reached: bool)
        requires
            self.wf(),
        ensures
            reached <==> self@.at_threshold(now),
    {
        if self.backlog_bytes() >= self.max_unpersisted_bytes {
            return true;
        }
        let oldest: Option<u64> = if self.sealed.len() > 0 {
            assert(self@.sealed[0] == self.sealed@[0]@);
            self.sealed[0].first_admitted_at
        } else {
            self.open_batch.first_admitted_at()
        };
        match oldest {
            Some(admitted_at) => now.saturating_sub(admitted_at) >= self.max_unpersisted_age,
            None => false,
        }
    }

    /// The place of the first sealed batch from place `from` on that is in the state.
    fn find_batch(&self, state: CreateState, from: usize) -> (found: Option<usize>)
        ensures
            found matches Some(i) ==> find_state(self@.sealed, state, from as int) == Some(
                i as int,
            ) && from <= i < self@.sealed.len(),
            found is None ==> find_state(self@.sealed, state, from as int) is None,
    {
        let ghost models = self@.sealed;
        let n: usize = self.sealed.len();
        let mut i: usize = from;
        while i < n
            invariant
                models == self@.sealed,
                n == models.len(),
                from <= i,
                find_state(models, state, from as int) == find_state(models, state, i as int),
            decreases n - i,
        {
            assert(models[i as int] == self.sealed@[i as int]@);
            if self.sealed[i].state == state {
                return Some(i);
            }
            i = i + 1;
        }
        None
    }

    /// Seals the open batch when no create is in flight, so that a stalled append has an upload to
    /// wait for.
    fn ensure_create_in_flight(&mut self)
        requires
            old(self).wf(),
        ensures
            final(self).wf(),
            final(self)@ == old(self)@.ensure_create_in_flight(),
    {
        if self.find_batch(CreateState::InFlight, 0).is_none() {
            self.flush_open_batch();
        }
    }

    /// Raises the issued ids to the last ids that `entries` got.
    fn raise_issued_ids(&mut self, regions: &Vec<u64>, last_entry_ids: &HashMap<u64, EntryId>)
        requires
            old(self).wf(),
            forall|region: u64| #[trigger]
                last_entry_ids@.contains_key(region) <==> regions@.contains(region),
        ensures
            final(self).wf(),
            final(self)@ == (ActorModel {
                issued: raise_issued(old(self)@.issued, last_entry_ids@),
                ..old(self)@
            }),
    {
        let ghost before = self@;
        let n: usize = regions.len();
        let mut i: usize = 0;
        proof {
            assert(regions@.take(0) =~= Seq::empty());
            assert(before.issued =~= raised_upto(before.issued, last_entry_ids@, regions@, 0));
        }
        while i < n
            invariant
                self.wf(),
                n == regions@.len(),
                i <= n,
                forall|region: u64| #[trigger]
                    last_entry_ids@.contains_key(region) <==> regions@.contains(region),
                self@ == (ActorModel {
                    issued: raised_upto(before.issued, last_entry_ids@, regions@, i as int),
                    ..before
                }),
            decreases n - i,
        {
            let region: u64 = regions[i];
            assert(regions@.contains(region));
            assert(last_entry_ids@.contains_key(region));
            if let Some(last) = last_entry_ids.get(&region) {
                let issued: u64 = match self.issued_entry_ids.get(&region) {
                    Some(issued) => *issued,
                    None => 0,
                };
                let ghost middle = self@.issued;
                if issued < *last {
                    self.issued_entry_ids.insert(region, *last);
                } else {
                    self.issued_entry_ids.insert(region, issued);
                }
                proof {
                    let next = raised_upto(before.issued, last_entry_ids@, regions@, i + 1);
                    assert(self@.issued =~= next) by {
                        assert forall|r: u64| #[trigger]
                            regions@.take(i + 1).contains(r) <==> (regions@.take(
                                i as int,
                            ).contains(r) || r == region) by {
                            if regions@.take(i as int).contains(r) {
                                let k = regions@.take(i as int).index_of(r);
                                assert(regions@.take(i + 1)[k] == r);
                            }
                            if regions@.take(i + 1).contains(r) {
                                let k = regions@.take(i + 1).index_of(r);
                                if k < i {
                                    assert(regions@.take(i as int)[k] == r);
                                }
                            }
                            assert(regions@.take(i + 1)[i as int] == region);
                        }
                    }
                }
            }
            i = i + 1;
        }
        proof {
            assert(regions@.take(n as int) =~= regions@);
            assert(raised_upto(before.issued, last_entry_ids@, regions@, n as int)
                =~= raise_issued(before.issued, last_entry_ids@));
        }
    }

    /// Admits an append into the open batch, which assigns the ids of its entries under the next
    /// object sequence. In the durable mode the caller waits for the object, in the enqueued mode
    /// it is answered now.
    fn take_in(&mut self, entries: Vec<Entry>, waiter: u64, now: u64)
        requires
            old(self).wf(),
        ensures
            final(self).wf(),
            final(self)@ == old(self)@.take_in(entries@, waiter, now),
    {
        proof {
            reveal(ActorModel::take_in);
            reveal(ActorModel::enter);
        }
        if !self.open_batch.is_empty() && self.open_batch.would_exhaust_positions(&entries) {
            self.flush_open_batch();
            if let Some(error) = self.terminal_error {
                self.answer_append(waiter, Failure::Shared(error));
                return;
            }
        }
        let object_seq: u64 = match self.next_object_seq {
            Some(object_seq) => object_seq,
            None => {
                let error = self.poison(
                    Error::WalObjectSequenceExhausted { last_object_seq: OBJECT_SEQ_LIMIT - 1 },
                );
                self.answer_append(waiter, Failure::Shared(error));
                return;
            },
        };
        let ghost open = self@;
        let regions = regions_of(&entries);
        let ghost given = entries@;
        let last_entry_ids = match self.open_batch.admit_entries(object_seq, entries, now) {
            Ok(last_entry_ids) => last_entry_ids,
            Err(error) => {
                self.answer_append(waiter, Failure::Own(error));
                return;
            },
        };
        proof {
            assert forall|region: u64| #[trigger]
                last_entry_ids@.contains_key(region) <==> regions@.contains(region) by {
                lemma_count_positive(given, region);
                if regions@.contains(region) {
                    let i = regions@.index_of(region);
                    assert(given[i].region_id.0 == region);
                }
                if count_region(given, region) > 0 {
                    let i = choose|i: int|
                        0 <= i < given.len() && (#[trigger] given[i]).region_id.0 == region;
                    assert(regions@[i] == region);
                }
            }
        }
        self.raise_issued_ids(&regions, &last_entry_ids);
        match self.ack_mode {
            AckMode::Durable => {
                let ghost pending = self@.pending;
                let append = PendingAppend { waiter, last_entry_ids };
                self.pending.push(append);
                assert(self@.pending =~= pending.push(append@));
            },
            AckMode::Enqueued => {
                self.act(
                    Action::AnswerAppend {
                        waiter,
                        result: Ok(AppendBatchResponse { last_entry_ids }),
                    },
                );
            },
        }
        if self.open_batch.should_seal() {
            self.flush_open_batch();
        }
    }

    /// Takes an append: refuses it once the store is stopped or failed, holds it back while the
    /// backlog of the enqueued mode is at a threshold, and admits it otherwise.
    pub fn handle_append(&mut self, entries: Vec<Entry>, waiter: u64, now: u64)
        requires
            old(self).wf(),
        ensures
            final(self).wf(),
            final(self)@ == old(self)@.append(entries@, waiter, now),
    {
        if self.stopped {
            self.answer_append(waiter, Failure::Own(Error::ObjectStoreWalStopped));
            return;
        }
        if let Some(error) = self.terminal_error {
            self.answer_append(waiter, Failure::Shared(error));
            return;
        }
        if self.ack_mode == AckMode::Enqueued && self.backlog_at_threshold(now) {
            let append = StalledAppend { entries, waiter };
            let ghost stalled = self@.stalled;
            self.stalled.push_back(append);
            assert(self@.stalled =~= stalled.push(append@));
            self.ensure_create_in_flight();
            return;
        }
        self.take_in(entries, waiter, now);
    }

    /// Admits the stalled appends in arrival order while the backlog is below the thresholds.
    fn release_stalled(&mut self, now: u64)
        requires
            old(self).wf(),
        ensures
            final(self).wf(),
            final(self)@ == old(self)@.release_stalled(now),
    {
        let ghost goal = self@.release_stalled(now);
        while self.stalled.len() > 0
            invariant
                self.wf(),
                goal == self@.release_stalled(now),
                goal == old(self)@.release_stalled(now),
            decreases self@.stalled.len(),
        {
            if self.stopped {
                self.fail_stalled_appends(Failure::Own(Error::ObjectStoreWalStopped));
                return;
            }
            if self.backlog_at_threshold(now) {
                self.ensure_create_in_flight();
                return;
            }
            let ghost before = self@;
            assert(before.stalled[0] == self.stalled@[0]@);
            if let Some(append) = self.stalled.pop_front() {
                assert(self@.stalled =~= before.stalled.drop_first());
                proof {
                    lemma_take_in_keeps_stalled(self@, append.entries@, append.waiter, now);
                }
                self.take_in(append.entries, append.waiter, now);
            }
        }
    }

    /// Answers the durability waiters whose entries are durable now.
    fn resolve_durable_waiters(&mut self)
        requires
            old(self).wf(),
        ensures
            final(self).wf(),
            final(self)@ == old(self)@.resolve_durable_waiters(),
    {
        let ghost before = self@;
        let ghost max_ids = before.catalog.max_ids;
        let mut waiting: Vec<DurableWaiter> = Vec::new();
        let n: usize = self.durable_waiters.len();
        let mut i: usize = 0;
        proof {
            assert(before.durable_waiters.take(0) =~= Seq::empty());
            assert(before.actions + answer_durable(before.durable_waiters.take(0), max_ids)
                =~= before.actions);
        }
        while i < n
            invariant
                self.wf(),
                n == before.durable_waiters.len(),
                i <= n,
                max_ids == before.catalog.max_ids,
                waiting@ == still_waiting(before.durable_waiters.take(i as int), max_ids),
                self@ == before.act_all(
                    answer_durable(before.durable_waiters.take(i as int), max_ids),
                ),
            decreases n - i,
        {
            let ghost more = before.durable_waiters.take(i + 1);
            assert(self@.durable_waiters == before.durable_waiters);
            assert(more.drop_last() =~= before.durable_waiters.take(i as int));
            let waiter = self.durable_waiters[i];
            if waiter.entry_id <= self.durable_entry_id_of(waiter.region_id) {
                self.answer(waiter.waiter, Ok(()));
                assert(self@.actions =~= before.actions + answer_durable(more, max_ids));
            } else {
                waiting.push(waiter);
            }
            i = i + 1;
        }
        assert(before.durable_waiters.take(n as int) =~= before.durable_waiters);
        self.durable_waiters = waiting;
    }

    /// Returns the largest entry id of the region whose object is durable and indexed, or zero for
    /// a region without such entries.
    pub fn durable_entry_id_of(&self, region_id: RegionId) -> (entry_id: EntryId)
        requires
            self.wf(),
        ensures
            entry_id == largest_id(self@.catalog.max_ids, region_id.0),
    {
        match self.catalog.region_max_entry_id(region_id) {
            Some(entry_id) => entry_id,
            None => 0,
        }
    }

    /// Indexes the created object at the front and acknowledges its waiters. Returns false when
    /// the catalog rejected it, which poisons the store.
    fn index_front(&mut self) -> (indexed: bool)
        requires
            old(self).wf(),
            old(self)@.sealed.len() > 0,
        ensures
            final(self).wf(),
            final(self)@ == old(self)@.index_front(),
            indexed <==> old(self)@.indexes_front(),
    {
        let ghost before = self@;
        assert(before.sealed[0] == self.sealed@[0]@);
        let object_seq: u64 = self.sealed[0].object_seq;
        let footer = copy_footer(&self.sealed[0].footer);
        if let Err(error) = self.catalog.insert_object(object_seq, footer) {
            self.poison(error);
            return false;
        }
        let ghost sealed_before = self.sealed@;
        let batch = self.sealed.remove(0);
        proof {
            assert(self@.sealed =~= before.sealed.drop_first());
            assert forall|i: int| 0 <= i < self.sealed@.len() implies (
            #[trigger] self.sealed@[i]).object_seq < OBJECT_SEQ_LIMIT by {
                assert(self.sealed@[i] == sealed_before[i + 1]);
            }
        }
        self.acknowledge_batch(batch.waiters, batch.seal_waiters);
        if let Some(unresolved) = self.unresolved_object_seq {
            if unresolved <= object_seq {
                self.unresolved_object_seq = None;
            }
        }
        self.resolve_durable_waiters();
        true
    }

    /// Acknowledges the waiters of a batch that is durable.
    fn acknowledge_batch(&mut self, waiters: Vec<PendingAppend>, seal_waiters: Vec<u64>)
        requires
            old(self).wf(),
        ensures
            final(self).wf(),
            final(self)@ == old(self)@.act_all(acknowledge(pending_models(waiters@))).act_all(
                answer_all(seal_waiters@, Ok(())),
            ),
    {
        let ghost before = self@;
        let ghost all = waiters@;
        let ghost models = pending_models(all);
        assert(before.actions + acknowledge(models.take(0)) =~= before.actions);
        for append in it: waiters
            invariant
                it.seq() == all,
                models == pending_models(all),
                self.wf(),
                self@ == before.act_all(acknowledge(models.take(it.index() as int))),
        {
            let ghost i = it.index() as int;
            assert(models[i] == append@);
            self.act(
                Action::AnswerAppend {
                    waiter: append.waiter,
                    result: Ok(AppendBatchResponse { last_entry_ids: append.last_entry_ids }),
                },
            );
            proof {
                assert(acknowledge(models.take(i + 1)) =~= acknowledge(models.take(i)).push(
                    ActionModel::AnswerAppend {
                        waiter: models[i].waiter,
                        result: Ok(models[i].last_ids),
                    },
                ));
                assert(self@.actions =~= before.actions + acknowledge(models.take(i + 1)));
            }
        }
        assert(models.take(models.len() as int) =~= models);
        self.answer_waiters(seal_waiters, Ok(()));
    }

    /// Gives each of the waiters the same answer.
    fn answer_waiters(&mut self, waiters: Vec<u64>, result: Result<(), Failure>)
        requires
            old(self).wf(),
        ensures
            final(self).wf(),
            final(self)@ == old(self)@.act_all(answer_all(waiters@, result)),
    {
        let ghost before = self@;
        let n: usize = waiters.len();
        let mut i: usize = 0;
        assert(before.actions + answer_all(waiters@.take(0), result) =~= before.actions);
        while i < n
            invariant
                self.wf(),
                n == waiters@.len(),
                i <= n,
                self@ == before.act_all(answer_all(waiters@.take(i as int), result)),
            decreases n - i,
        {
            let waiter: u64 = waiters[i];
            self.answer(waiter, result);
            proof {
                let more = answer_all(waiters@.take(i + 1), result);
                assert(more =~= answer_all(waiters@.take(i as int), result).push(
                    ActionModel::Answer { waiter, result },
                ));
                assert(self@.actions =~= before.actions + more);
            }
            i = i + 1;
        }
        assert(waiters@.take(n as int) =~= waiters@);
    }
}

impl Actor {
    /// Indexes and acknowledges the sealed batches from the front as far as they are created, and
    /// resolves a failed batch at the front once nothing is in flight.
    fn settle_front(&mut self)
        requires
            old(self).wf(),
        ensures
            final(self).wf(),
            final(self)@ == old(self)@.settle_front(),
    {
        let ghost goal = self@.settle_front();
        while self.sealed.len() > 0
            invariant
                self.wf(),
                goal == self@.settle_front(),
                goal == old(self)@.settle_front(),
            decreases self@.sealed.len(),
        {
            assert(self@.sealed[0] == self.sealed@[0]@);
            let object_seq: u64 = self.sealed[0].object_seq;
            match self.sealed[0].state {
                CreateState::Pending => {
                    return;
                },
                CreateState::InFlight => {
                    return;
                },
                CreateState::Created => {
                    if !self.index_front() {
                        return;
                    }
                },
                CreateState::Failed(error) => {
                    if self.find_batch(CreateState::InFlight, 0).is_some() {
                        return;
                    }
                    match self.find_batch(CreateState::Created, 1) {
                        Some(later) => {
                            assert(self@.sealed[later as int] == self.sealed@[later as int]@);
                            let later_object_seq: u64 = self.sealed[later].object_seq;
                            self.poison(
                                Error::WalObjectHistoryGap { object_seq, later_object_seq },
                            );
                        },
                        None => {
                            self.roll_back(object_seq, error);
                        },
                    }
                    return;
                },
            }
        }
    }

    /// Settles what can be settled, starts the creates that a free slot allows and admits the
    /// stalled appends that the backlog allows.
    fn settle(&mut self, now: u64)
        requires
            old(self).wf(),
        ensures
            final(self).wf(),
            final(self)@ == old(self)@.settle(now),
    {
        self.settle_front();
        self.start_creates();
        self.release_stalled(now);
    }

    /// The place of the sealed batch of the sequence.
    fn find_object(&self, object_seq: u64) -> (found: Option<usize>)
        ensures
            found matches Some(i) ==> find_seq(self@.sealed, object_seq, 0) == Some(i as int) && i
                < self@.sealed.len(),
            found is None ==> find_seq(self@.sealed, object_seq, 0) is None,
    {
        let ghost models = self@.sealed;
        let n: usize = self.sealed.len();
        let mut i: usize = 0;
        while i < n
            invariant
                models == self@.sealed,
                n == models.len(),
                i <= n,
                find_seq(models, object_seq, 0) == find_seq(models, object_seq, i as int),
            decreases n - i,
        {
            assert(models[i as int] == self.sealed@[i as int]@);
            if self.sealed[i].object_seq == object_seq {
                return Some(i);
            }
            i = i + 1;
        }
        None
    }

    /// Gives the sealed batch at place `at` another state.
    fn set_state(&mut self, at: usize, state: CreateState)
        requires
            old(self).wf(),
            at < old(self)@.sealed.len(),
        ensures
            final(self).wf(),
            final(self)@ == old(self)@.with_state(at as int, state),
    {
        let ghost before = self@;
        let ghost sealed_before = self.sealed@;
        assert(before.sealed[at as int] == self.sealed@[at as int]@);
        self.sealed[at].state = state;
        proof {
            assert(self@.sealed =~= before.sealed.update(
                at as int,
                SealedModel { state, ..before.sealed[at as int] },
            ));
            assert forall|i: int| 0 <= i < self.sealed@.len() implies (
            #[trigger] self.sealed@[i]).object_seq < OBJECT_SEQ_LIMIT by {
                assert(sealed_before[i].object_seq < OBJECT_SEQ_LIMIT);
            }
        }
    }

    /// Takes a create out of those that run.
    fn forget_create(&mut self, object_seq: u64)
        requires
            old(self).wf(),
        ensures
            final(self).wf(),
            final(self)@ == old(self)@.create_done(object_seq),
    {
        let ghost before = self@;
        let n: usize = self.creates.len();
        let mut i: usize = 0;
        while i < n
            invariant
                self.wf(),
                self@ == before,
                before == old(self)@,
                n == before.creates.len(),
                i <= n,
                forall|k: int| 0 <= k < i ==> #[trigger] before.creates[k] != object_seq,
            decreases n - i,
        {
            if self.creates[i] == object_seq {
                proof {
                    assert(before.creates[i as int] == object_seq);
                    lemma_first_place(before.creates, object_seq, i as int);
                }
                self.creates.remove(i);
                return;
            }
            i = i + 1;
        }
        proof {
            lemma_no_place(before.creates, object_seq);
        }
    }

    /// Takes the outcome of a create: the object exists, the object store did not confirm it, or
    /// the object cannot be created.
    pub fn on_create_completed(&mut self, object_seq: u64, result: Result<(), Error>, now: u64)
        requires
            old(self).wf(),
        ensures
            final(self).wf(),
            final(self)@ == old(self)@.create_completed(object_seq, result, now),
    {
        self.forget_create(object_seq);
        let at: usize = match self.find_object(object_seq) {
            Some(at) => at,
            None => {
                return;
            },
        };
        match result {
            Ok(()) => {
                self.set_state(at, CreateState::Created);
            },
            Err(error) => {
                if let Error::WalObjectStore { .. } = error {
                    if self.ack_mode == AckMode::Enqueued && !self.stopped {
                        self.set_state(at, CreateState::Pending);
                    } else {
                        self.set_state(at, CreateState::Failed(error));
                        self.draining = true;
                    }
                } else {
                    self.poison(error);
                    return;
                }
            },
        }
        self.settle(now);
    }

    /// Takes a caller that waits until the region is durable through `entry_id`.
    pub fn handle_wait_durable(&mut self, region_id: RegionId, entry_id: EntryId, waiter: u64)
        requires
            old(self).wf(),
        ensures
            final(self).wf(),
            final(self)@ == old(self)@.wait_durable(region_id, entry_id, waiter),
    {
        if let Some(error) = self.terminal_error {
            self.answer(waiter, Err(Failure::Shared(error)));
            return;
        }
        if entry_id <= self.durable_entry_id_of(region_id) {
            self.answer(waiter, Ok(()));
            return;
        }
        if let Some(error) = self.stop_error {
            self.answer(waiter, Err(Failure::Shared(error)));
            return;
        }
        if entry_id > self.issued_entry_id_of(region_id) {
            self.answer(waiter, Ok(()));
            return;
        }
        self.durable_waiters.push(DurableWaiter { region_id, entry_id, waiter });
    }

    /// Returns the largest entry id of the region that was ever handed out, or zero.
    fn issued_entry_id_of(&self, region_id: RegionId) -> (entry_id: EntryId)
        ensures
            entry_id == largest_id(self@.issued, region_id.0),
    {
        match self.issued_entry_ids.get(&region_id.as_u64()) {
            Some(entry_id) => *entry_id,
            None => 0,
        }
    }

    /// Moves the sequence of the next object above the object that holds `entry_id` unless it is
    /// there already. The move fails while the next sequence is not settled: the open batch handed
    /// out ids under it, a create is in flight, or a rolled back batch may have left an object at
    /// it. A floor that does not fit an entry id poisons the store like an exhausted sequence.
    fn raise_sequence_floor(&mut self, region_id: RegionId, entry_id: EntryId) -> (result: Result<
        (),
        Failure,
    >)
        requires
            old(self).wf(),
        ensures
            final(self).wf(),
            final(self)@ == old(self)@.raise_sequence_floor(region_id.0, entry_id),
            match old(self)@.floor_failure(region_id.0, entry_id) {
                Some(failure) => result == Err::<(), Failure>(failure),
                None => result == Ok::<(), Failure>(()),
            },
    {
        proof {
            reveal(ActorModel::raise_sequence_floor);
        }
        // Nothing is assigned an id after stop began.
        if self.stopped {
            return Ok(());
        }
        if let Some(error) = self.terminal_error {
            return Err(Failure::Shared(error));
        }
        // An id that was handed out in the enqueued mode is never handed out again.
        if self.ack_mode == AckMode::Enqueued && entry_id <= self.issued_entry_id_of(region_id) {
            return Ok(());
        }
        let floor: u64 = sequence_floor(entry_id);
        let next_object_seq: u64 = match self.next_object_seq {
            Some(next_object_seq) => next_object_seq,
            None => {
                return Ok(());
            },
        };
        // A failed create rolls the sequence back to the first batch that is not durable.
        if self.sealed.len() > 0 {
            assert(self@.sealed[0] == self.sealed@[0]@);
            let object_seq: u64 = self.sealed[0].object_seq;
            if object_seq >= floor {
                return Ok(());
            }
            return Err(Failure::Own(Error::WalObjectSequenceUnsettled { object_seq }));
        }
        if next_object_seq >= floor {
            return Ok(());
        }
        let resolved: bool = match self.unresolved_object_seq {
            Some(unresolved) => unresolved < next_object_seq,
            None => true,
        };
        if !self.open_batch.is_empty() || !resolved {
            return Err(
                Failure::Own(Error::WalObjectSequenceUnsettled { object_seq: next_object_seq }),
            );
        }
        if floor < OBJECT_SEQ_LIMIT {
            self.next_object_seq = Some(floor);
            Ok(())
        } else {
            self.next_object_seq = None;
            let error = self.poison(
                Error::WalObjectSequenceExhausted { last_object_seq: OBJECT_SEQ_LIMIT - 1 },
            );
            Err(Failure::Shared(error))
        }
    }

    /// Records the obsolete watermark of the region, which never moves down.
    pub fn record_obsolete(&mut self, region_id: RegionId, entry_id: EntryId)
        requires
            old(self).wf(),
        ensures
            final(self).wf(),
            final(self)@ == (ActorModel {
                obsolete: raise_watermark(old(self)@.obsolete, region_id.0, entry_id),
                ..old(self)@
            }),
    {
        let region: u64 = region_id.as_u64();
        let current: u64 = match self.obsolete_entry_ids.get(&region) {
            Some(current) => *current,
            None => 0,
        };
        if current < entry_id {
            self.obsolete_entry_ids.insert(region, entry_id);
        } else {
            self.obsolete_entry_ids.insert(region, current);
        }
    }

    /// Starts deleting the objects the catalog and the obsolete watermarks allow. Nothing is
    /// collected once stop began or the store is poisoned.
    fn collect_garbage(&mut self)
        requires
            old(self).wf(),
        ensures
            final(self).wf(),
            final(self)@ == old(self)@.collect_garbage(),
    {
        proof {
            reveal(ActorModel::collect_garbage);
        }
        if self.stopped || self.terminal_error.is_some() {
            return;
        }
        let ghost before = self@;
        let scan = self.catalog.deletable_objects(
            &self.obsolete_entry_ids,
            0,
            usize::MAX,
            usize::MAX,
        );
        let ghost found = scan.objects@;
        let n: usize = scan.objects.len();
        let mut i: usize = 0;
        proof {
            self.catalog.lemma_wf_is_valid();
            lemma_deletable(
                before.catalog,
                before.obsolete,
                0,
                usize::MAX as int,
                usize::MAX as int,
            );
            let none = not_deleting(found.take(0), before.deleting);
            assert(none =~= Seq::empty());
            assert(before.deleting.union(none.to_set()) =~= before.deleting);
            assert(before.actions + none.map_values(
                |object_seq: u64| ActionModel::Delete { object_seq },
            ) =~= before.actions);
        }
        while i < n
            invariant
                self.wf(),
                n == found.len(),
                found == scan.objects@,
                strictly_increasing(found),
                i <= n,
                self@ == deleting_upto(before, found, i as int),
            decreases n - i,
        {
            let object_seq: u64 = scan.objects[i];
            let ghost middle = self@;
            proof {
                lemma_deleting_step(before, found, i as int);
            }
            if !self.deleting.contains_key(object_seq) {
                self.deleting.insert(object_seq, ());
                assert(self@.deleting =~= middle.deleting.insert(object_seq));
                self.act(Action::Delete { object_seq });
            }
            i = i + 1;
        }
        assert(found.take(n as int) =~= found);
    }

    /// Makes sure no id of the region at or below `entry_id` is assigned from now on, then records
    /// the obsolete watermark of the region and collects the objects the watermarks release;
    /// nothing is done when the sequence cannot be raised.
    pub fn handle_obsolete(
        &mut self,
        region_id: RegionId,
        entry_id: EntryId,
        watermark: EntryId,
        waiter: u64,
    )
        requires
            old(self).wf(),
        ensures
            final(self).wf(),
            final(self)@ == old(self)@.obsolete_upto(region_id, entry_id, watermark, waiter),
    {
        let result = self.raise_sequence_floor(region_id, entry_id);
        if result.is_ok() {
            self.record_obsolete(region_id, watermark);
            self.collect_garbage();
        }
        self.answer(waiter, result);
    }

    /// Takes the outcome of a delete. A deleted object is unindexed; one whose delete failed stays
    /// indexed, so the next collection deletes it again.
    pub fn on_delete_completed(&mut self, object_seq: u64, deleted: bool)
        requires
            old(self).wf(),
        ensures
            final(self).wf(),
            final(self)@ == old(self)@.delete_completed(object_seq, deleted),
    {
        let ghost before = self@;
        if deleted {
            self.catalog.remove_object(object_seq);
        }
        self.deleting.remove(object_seq);
        assert(self@.deleting =~= before.deleting.remove(object_seq));
    }

    /// Sets the stopped flag: nothing is admitted from now on.
    pub fn begin_stop(&mut self)
        requires
            old(self).wf(),
        ensures
            final(self).wf(),
            final(self)@ == (ActorModel { stopped: true, ..old(self)@ }),
    {
        self.stopped = true;
    }

    /// Begins stopping. The durable mode drops the open batch and the batches whose create has not
    /// started, the enqueued mode seals its backlog so it is uploaded. Stop is answered by
    /// [`Actor::finish_stop`] once nothing is in flight.
    pub fn handle_stop(&mut self, waiter: u64)
        requires
            old(self).wf(),
        ensures
            final(self).wf(),
            final(self)@ == old(self)@.begin_exit(waiter),
    {
        let failure = Failure::Own(Error::ObjectStoreWalStopped);
        self.stop.push(waiter);
        match self.ack_mode {
            AckMode::Durable => {
                self.reset_open_batch();
                self.fail_pending_appends(failure);
                if let Some(at) = self.find_batch(CreateState::Pending, 0) {
                    let ghost before = self@;
                    let ghost sealed_before = self.sealed@;
                    assert(before.sealed[at as int] == self.sealed@[at as int]@);
                    self.next_object_seq = Some(self.sealed[at].object_seq);
                    self.fail_sealed_from(at, failure);
                    let ghost middle = self.sealed@;
                    assert(sealed_models(middle) == before.sealed);
                    self.sealed.truncate(at);
                    proof {
                        assert(self@.sealed =~= before.sealed.take(at as int));
                        assert forall|i: int| 0 <= i < self.sealed@.len() implies (
                        #[trigger] self.sealed@[i]).object_seq < OBJECT_SEQ_LIMIT by {
                            assert(self.sealed@[i] == middle[i]);
                        }
                    }
                }
            },
            AckMode::Enqueued => {
                self.fail_stalled_appends(failure);
                self.flush_open_batch();
            },
        }
    }

    /// Answers the callers of stop once every sealed batch is settled and every create and delete
    /// has completed. Returns true when the actor is done.
    pub fn finish_stop(&mut self) -> (done: bool)
        requires
            old(self).wf(),
        ensures
            final(self).wf(),
            final(self)@ == old(self)@.finish_exit(),
            done <==> old(self)@.may_exit(),
    {
        let ghost before = self@;
        proof {
            if self.deleting@ == Map::<u64, ()>::empty() {
                assert(before.deleting =~= Set::empty());
            }
            if before.deleting == Set::<u64>::empty() {
                assert(self.deleting@ =~= Map::empty());
            }
        }
        if self.stop.len() == 0 || self.sealed.len() > 0 || self.creates.len() > 0
            || !self.deleting.is_empty() {
            return false;
        }
        self.fail_durable_waiters(Failure::Own(Error::ObjectStoreWalStopped));
        let result: Result<(), Failure> = match self.stop_error {
            Some(error) => Err(Failure::Shared(error)),
            None => Ok(()),
        };
        self.stop_error = None;
        let mut callers: Vec<u64> = Vec::new();
        std::mem::swap(&mut callers, &mut self.stop);
        self.answer_waiters(callers, result);
        true
    }

    /// Seals the open batch regardless of its size and age, and answers once its object is durable
    /// and indexed, or with the error that failed it.
    pub fn handle_seal(&mut self, waiter: u64)
        requires
            old(self).wf(),
        ensures
            final(self).wf(),
            final(self)@ == old(self)@.seal_requested(waiter),
    {
        if self.stopped {
            self.answer(waiter, Err(Failure::Own(Error::ObjectStoreWalStopped)));
            return;
        }
        proof {
            if self@.seals() {
                lemma_flush_seals(self@);
            }
        }
        if self.flush_open_batch() {
            let ghost flushed = self@;
            let ghost sealed_before = self.sealed@;
            let at: usize = self.sealed.len() - 1;
            assert(flushed.sealed[at as int] == self.sealed@[at as int]@);
            self.sealed[at].seal_waiters.push(waiter);
            proof {
                let batch = flushed.sealed[at as int];
                assert(self@.sealed =~= flushed.sealed.update(
                    at as int,
                    SealedModel { seal_waiters: batch.seal_waiters.push(waiter), ..batch },
                ));
                assert forall|i: int| 0 <= i < self.sealed@.len() implies (
                #[trigger] self.sealed@[i]).object_seq < OBJECT_SEQ_LIMIT by {
                    assert(sealed_before[i].object_seq < OBJECT_SEQ_LIMIT);
                }
            }
            return;
        }
        let result = self.check_terminal();
        self.answer(waiter, result);
    }

    /// The flush interval elapsed: the open batch is sealed unless stop began.
    pub fn tick(&mut self)
        requires
            old(self).wf(),
        ensures
            final(self).wf(),
            final(self)@ == old(self)@.tick(),
    {
        if !self.stopped {
            self.flush_open_batch();
        }
    }

    /// The terminal error as the failure that every operation meets, if there is one.
    pub fn check_terminal(&self) -> (result: Result<(), Failure>)
        ensures
            result == self@.health(),
    {
        match self.terminal_error {
            Some(error) => Err(Failure::Shared(error)),
            None => Ok(()),
        }
    }

    /// Whether the stopped flag is set.
    pub fn is_stopped(&self) -> (stopped: bool)
        ensures
            stopped == self@.stopped,
    {
        self.stopped
    }

    /// Takes what is to be done.
    pub fn take_actions(&mut self) -> (actions: Vec<Action>)
        requires
            old(self).wf(),
        ensures
            final(self).wf(),
            action_models(actions@) == old(self)@.actions,
            final(self)@ == (ActorModel { actions: Seq::empty(), ..old(self)@ }),
    {
        let mut actions: Vec<Action> = Vec::new();
        std::mem::swap(&mut actions, &mut self.actions);
        assert(action_models(self.actions@) =~= Seq::empty());
        actions
    }

    /// The bytes of the object that is to be created under the sequence.
    pub fn object_bytes(&self, object_seq: u64) -> (bytes: Option<&Vec<u8>>)
        ensures
            match find_seq(self@.sealed, object_seq, 0) {
                Some(i) => bytes matches Some(found) && found@ == self@.sealed[i].bytes,
                None => bytes is None,
            },
    {
        match self.find_object(object_seq) {
            Some(at) => {
                assert(self@.sealed[at as int] == self.sealed@[at as int]@);
                Some(&self.sealed[at].bytes)
            },
            None => None,
        }
    }

    /// The catalog of the durable objects.
    pub fn catalog(&self) -> (catalog: &ObjectCatalog)
        requires
            self.wf(),
        ensures
            catalog.wf(),
            catalog@ == self@.catalog,
    {
        &self.catalog
    }

    /// The obsolete watermark of the region, if one is recorded.
    pub fn watermark(&self, region_id: RegionId) -> (watermark: Option<EntryId>)
        ensures
            watermark == (if self@.obsolete.contains_key(region_id.0) {
                Some(self@.obsolete[region_id.0])
            } else {
                None
            }),
    {
        match self.obsolete_entry_ids.get(&region_id.as_u64()) {
            Some(watermark) => Some(*watermark),
            None => None,
        }
    }

    /// Whether the delete of the object is in flight.
    pub fn is_deleting(&self, object_seq: u64) -> (deleting: bool)
        requires
            self.wf(),
        ensures
            deleting <==> self@.deleting.contains(object_seq),
    {
        self.deleting.contains_key(object_seq)
    }

    /// When appends are acknowledged.
    pub fn ack_mode(&self) -> (ack_mode: AckMode)
        ensures
            ack_mode == self@.ack_mode,
    {
        self.ack_mode
    }

    /// The actor of a store that was just opened on the objects of `catalog`.
    pub fn new(
        settings: ActorSettings,
        catalog: ObjectCatalog,
        next_object_seq: u64,
        durable_entry_ids: HashMap<u64, EntryId>,
    ) -> (actor: Actor)
        requires
            catalog.wf(),
            next_object_seq < OBJECT_SEQ_LIMIT,
        ensures
            actor.wf(),
            actor@ == opened(settings, catalog@, next_object_seq, durable_entry_ids@),
    {
        let actor = Actor {
            ack_mode: settings.ack_mode,
            max_unpersisted_bytes: settings.max_unpersisted_bytes,
            max_unpersisted_age: settings.max_unpersisted_age,
            writer_instance: settings.writer_instance,
            catalog,
            obsolete_entry_ids: HashMap::new(),
            terminal_error: None,
            stopped: false,
            open_batch: ObjectBatch::new(settings.max_batch_bytes),
            issued_entry_ids: durable_entry_ids,
            pending: Vec::new(),
            sealed: Vec::new(),
            creates: Vec::new(),
            draining: false,
            stalled: VecDeque::new(),
            durable_waiters: Vec::new(),
            stop: Vec::new(),
            stop_error: None,
            next_object_seq: Some(next_object_seq),
            unresolved_object_seq: None,
            deleting: OrdMap::new(),
            actions: Vec::new(),
        };
        proof {
            assert(actor@.pending =~= Seq::empty());
            assert(actor@.sealed =~= Seq::empty());
            assert(actor@.stalled =~= Seq::empty());
            assert(actor@.actions =~= Seq::empty());
            assert(actor@.deleting =~= Set::empty());
        }
        actor
    }
}

/// What an actor is set up with.
#[derive(Clone, Copy, Debug)]
pub struct ActorSettings {
    pub ack_mode: AckMode,
    pub max_batch_bytes: usize,
    pub max_unpersisted_bytes: usize,
    /// In nanoseconds of the caller's clock.
    pub max_unpersisted_age: u64,
    pub writer_instance: u128,
}

/// The state of an actor that was just opened.
pub open spec fn opened(
    settings: ActorSettings,
    catalog: CatalogModel,
    next_object_seq: u64,
    durable_entry_ids: Map<u64, EntryId>,
) -> ActorModel {
    ActorModel {
        ack_mode: settings.ack_mode,
        max_unpersisted_bytes: settings.max_unpersisted_bytes as int,
        max_unpersisted_age: settings.max_unpersisted_age as int,
        writer_instance: settings.writer_instance,
        catalog,
        obsolete: Map::empty(),
        terminal: None,
        stopped: false,
        batch: ObjectBatchModel {
            max_bytes: settings.max_batch_bytes as int,
            entries: Seq::empty(),
            first_admitted_at: None,
        },
        issued: durable_entry_ids,
        pending: Seq::empty(),
        sealed: Seq::empty(),
        creates: Seq::empty(),
        draining: false,
        stalled: Seq::empty(),
        durable_waiters: Seq::empty(),
        stop: Seq::empty(),
        stop_error: None,
        next_object_seq: Some(next_object_seq),
        unresolved_object_seq: None,
        deleting: Set::empty(),
        actions: Seq::empty(),
    }
}

/// The actor once the first `n` of the collectible objects are being deleted.
spec fn deleting_upto(before: ActorModel, found: Seq<u64>, n: int) -> ActorModel {
    let chosen = not_deleting(found.take(n), before.deleting);
    ActorModel { deleting: before.deleting.union(chosen.to_set()), ..before }.act_all(
        chosen.map_values(|object_seq: u64| ActionModel::Delete { object_seq }),
    )
}

/// The objects that are picked are those found that are not being deleted.
pub proof fn lemma_not_deleting(found: Seq<u64>, deleting: Set<u64>)
    ensures
        forall|x: u64| #[trigger]
            not_deleting(found, deleting).contains(x) <==> found.contains(x) && !deleting.contains(
                x,
            ),
    decreases found.len(),
{
    if found.len() > 0 {
        let rest = found.drop_last();
        let last = found.last();
        lemma_not_deleting(rest, deleting);
        let less = not_deleting(rest, deleting);
        let all = not_deleting(found, deleting);
        assert forall|x: u64| #[trigger] all.contains(x) <==> found.contains(x)
            && !deleting.contains(x) by {
            if rest.contains(x) {
                assert(found[rest.index_of(x)] == x);
            }
            if found.contains(x) && x != last {
                let k = found.index_of(x);
                assert(rest[k] == x);
            }
            assert(found[found.len() - 1] == last);
            if less.contains(x) {
                assert(all[less.index_of(x)] == x);
            }
            if !deleting.contains(last) {
                assert(all[less.len() as int] == last);
            }
            if all.contains(x) {
                let k = all.index_of(x);
                if k < less.len() {
                    assert(less[k] == x);
                }
            }
        }
    }
}

/// One more collectible object starts to be deleted, unless it is being deleted already.
proof fn lemma_deleting_step(before: ActorModel, found: Seq<u64>, n: int)
    requires
        strictly_increasing(found),
        0 <= n < found.len(),
    ensures
        ({
            let middle = deleting_upto(before, found, n);
            let after = deleting_upto(before, found, n + 1);
            if middle.deleting.contains(found[n]) {
                after == middle
            } else {
                after == ActorModel {
                    deleting: middle.deleting.insert(found[n]),
                    ..middle
                }.act(ActionModel::Delete { object_seq: found[n] })
            }
        }),
{
    let less = found.take(n);
    let more = found.take(n + 1);
    let chosen = not_deleting(less, before.deleting);
    assert(more.drop_last() =~= less);
    assert(more.last() == found[n]);
    lemma_not_deleting(less, before.deleting);
    assert(!less.contains(found[n])) by {
        if less.contains(found[n]) {
            let k = less.index_of(found[n]);
            assert(found[k] < found[n]);
        }
    }
    let middle = deleting_upto(before, found, n);
    let after = deleting_upto(before, found, n + 1);
    assert(middle.deleting.contains(found[n]) <==> before.deleting.contains(found[n])) by {
        assert(chosen.to_set().contains(found[n]) <==> chosen.contains(found[n]));
    }
    if !before.deleting.contains(found[n]) {
        let next = not_deleting(more, before.deleting);
        assert(next =~= chosen.push(found[n]));
        assert(before.deleting.union(next.to_set()) =~= middle.deleting.insert(found[n])) by {
            assert forall|x: u64| next.to_set().contains(x) <==> chosen.to_set().contains(x) || x
                == found[n] by {
                if chosen.contains(x) {
                    assert(next[chosen.index_of(x)] == x);
                }
                assert(next[chosen.len() as int] == found[n]);
                if next.contains(x) {
                    let k = next.index_of(x);
                    if k < chosen.len() {
                        assert(chosen[k] == x);
                    }
                }
            }
        }
        assert(next.map_values(|object_seq: u64| ActionModel::Delete { object_seq })
            =~= chosen.map_values(|object_seq: u64| ActionModel::Delete { object_seq }).push(
            ActionModel::Delete { object_seq: found[n] },
        ));
        assert(after.actions =~= middle.actions.push(
            ActionModel::Delete { object_seq: found[n] },
        ));
    }
}

/// The issued ids once the last ids of the first `n` of `regions` are taken over.
spec fn raised_upto(
    issued: Map<u64, EntryId>,
    last_ids: Map<u64, EntryId>,
    regions: Seq<u64>,
    n: int,
) -> Map<u64, EntryId> {
    Map::new(
        |region: u64| issued.contains_key(region) || regions.take(n).contains(region),
        |region: u64|
            if regions.take(n).contains(region) && largest_id(issued, region) < last_ids[region] {
                last_ids[region]
            } else {
                largest_id(issued, region)
            },
    )
}

/// The region of each entry.
fn regions_of(entries: &Vec<Entry>) -> (regions: Vec<u64>)
    ensures
        regions@.len() == entries@.len(),
        forall|i: int| 0 <= i < entries@.len() ==> #[trigger] regions@[i] == entries@[i].region_id.0,
{
    let mut regions: Vec<u64> = Vec::new();
    let n: usize = entries.len();
    let mut i: usize = 0;
    while i < n
        invariant
            n == entries@.len(),
            i <= n,
            regions@.len() == i,
            forall|k: int| 0 <= k < i ==> #[trigger] regions@[k] == entries@[k].region_id.0,
        decreases n - i,
    {
        regions.push(entries[i].region_id.as_u64());
        i = i + 1;
    }
    regions
}

/// Copies a footer.
fn copy_footer(footer: &Vec<FooterEntry>) -> (copy: Vec<FooterEntry>)
    ensures
        copy@ == footer@,
{
    let mut copy: Vec<FooterEntry> = Vec::new();
    let n: usize = footer.len();
    let mut i: usize = 0;
    while i < n
        invariant
            n == footer@.len(),
            i <= n,
            copy@ == footer@.take(i as int),
        decreases n - i,
    {
        copy.push(footer[i]);
        i = i + 1;
        assert(copy@ =~= footer@.take(i as int));
    }
    assert(footer@.take(n as int) =~= footer@);
    copy
}

/// The larger of two optional sequences.
fn larger_seq(a: Option<u64>, b: Option<u64>) -> (larger_one: Option<u64>)
    ensures
        larger_one == larger(a, b),
{
    match a {
        None => b,
        Some(x) => match b {
            None => a,
            Some(y) => if x < y {
                b
            } else {
                a
            },
        },
    }
}

} // verus!
