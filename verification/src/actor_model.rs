//! What the actor does, as functions from one state to the next.
//!
//! Sealed batches form a pipeline in sequence order. A batch is created under its sequence as soon
//! as one of [`MAX_IN_FLIGHT_CREATES`] slots is free, but it is indexed and acknowledged only once
//! every earlier batch is, so the acknowledged history of a region never has a missing
//! predecessor.
use vstd::prelude::*;

use crate::batch::{largest_id, placed_last_ids, ObjectBatchModel};
use crate::catalog::CatalogModel;
use crate::error::{Error, Failure};
use crate::format::{
    footer_of, grouped, object_bytes, unencodable, FooterEntry, Header, RecordModel,
};
use crate::id::{floor_of, EntryId, RegionId, OBJECT_SEQ_LIMIT};
use crate::logstore::{total_size, Entry};

verus! {

/// Number of conditional creates that run at a time.
pub const MAX_IN_FLIGHT_CREATES: usize = 4;

/// When an append is acknowledged.
#[derive(Clone, Copy, Debug, PartialEq, Eq, Structural)]
pub enum AckMode {
    /// Once the object that holds its entries is durable.
    Durable,
    /// On admission; the object is created in the background.
    Enqueued,
}

/// Where the conditional create of a sealed batch stands.
#[derive(Clone, Copy, Debug, PartialEq, Eq, Structural)]
pub enum CreateState {
    /// The create has not started: no slot was free, or an earlier attempt failed transiently and
    /// is repeated.
    Pending,
    InFlight,
    Created,
    /// The create failed transiently and is not repeated.
    Failed(Error),
}

/// A caller waiting until a region is durable through an entry id.
#[derive(Clone, Copy, Debug, PartialEq, Eq, Structural)]
pub struct DurableWaiter {
    pub region_id: RegionId,
    pub entry_id: EntryId,
    pub waiter: u64,
}

/// An append waiting for the object that holds its entries.
#[verifier::ext_equal]
pub struct PendingModel {
    pub waiter: u64,
    pub last_ids: Map<u64, EntryId>,
}

/// A sealed batch that waits to be created, indexed and acknowledged.
#[verifier::ext_equal]
pub struct SealedModel {
    pub object_seq: u64,
    pub bytes: Seq<u8>,
    pub footer: Seq<FooterEntry>,
    pub first_admitted_at: Option<u64>,
    pub attempts: u32,
    pub waiters: Seq<PendingModel>,
    pub seal_waiters: Seq<u64>,
    pub state: CreateState,
}

/// An append held back until the backlog shrinks.
#[verifier::ext_equal]
pub struct StalledModel {
    pub entries: Seq<Entry>,
    pub waiter: u64,
}

/// What the actor asks to be done.
#[allow(inconsistent_fields)]
#[verifier::ext_equal]
pub enum ActionModel {
    /// Answer an append with the last id of each of its regions, or with a failure.
    AnswerAppend { waiter: u64, result: Result<Map<u64, EntryId>, Failure> },
    /// Answer any other request.
    Answer { waiter: u64, result: Result<(), Failure> },
    /// Create the object, after a delay if the create is repeated.
    Create { object_seq: u64, delayed: bool },
    /// Delete the object.
    Delete { object_seq: u64 },
}

/// The state of the actor.
#[verifier::ext_equal]
pub struct ActorModel {
    pub ack_mode: AckMode,
    pub max_unpersisted_bytes: int,
    pub max_unpersisted_age: int,
    pub writer_instance: u128,
    pub catalog: CatalogModel,
    /// The obsolete watermark of each region.
    pub obsolete: Map<u64, EntryId>,
    pub terminal: Option<Error>,
    pub stopped: bool,
    pub batch: ObjectBatchModel,
    /// The largest entry id ever handed out per region.
    pub issued: Map<u64, EntryId>,
    /// The waiters of the open batch.
    pub pending: Seq<PendingModel>,
    /// The batches that are not durable yet, in sequence order.
    pub sealed: Seq<SealedModel>,
    /// The sequences of the creates that run.
    pub creates: Seq<u64>,
    /// No create starts until every create in flight has completed.
    pub draining: bool,
    pub stalled: Seq<StalledModel>,
    pub durable_waiters: Seq<DurableWaiter>,
    /// The callers of stop.
    pub stop: Seq<u64>,
    /// What stop reports once an acknowledged backlog was dropped.
    pub stop_error: Option<Error>,
    /// The sequence of the next sealed batch, none once the sequence is exhausted.
    pub next_object_seq: Option<u64>,
    /// The largest sequence whose object may exist although its batch was rolled back.
    pub unresolved_object_seq: Option<u64>,
    /// The objects whose delete is in flight.
    pub deleting: Set<u64>,
    /// What is to be done, in order.
    pub actions: Seq<ActionModel>,
}

/// The records that entries are written as.
pub open spec fn entry_records(entries: Seq<Entry>) -> Seq<RecordModel> {
    Seq::new(
        entries.len(),
        |i: int|
            RecordModel {
                region: entries[i].region_id.0,
                entry_id: entries[i].entry_id,
                payload: entries[i].data@,
            },
    )
}

/// The number of bytes of sealed batches.
pub open spec fn sealed_bytes(sealed: Seq<SealedModel>) -> nat
    decreases sealed.len(),
{
    if sealed.len() == 0 {
        0
    } else {
        sealed_bytes(sealed.drop_last()) + sealed.last().bytes.len()
    }
}

/// The number of batches whose create is in flight.
pub open spec fn in_flight(sealed: Seq<SealedModel>) -> nat
    decreases sealed.len(),
{
    if sealed.len() == 0 {
        0
    } else {
        in_flight(sealed.drop_last()) + (if sealed.last().state == CreateState::InFlight {
            1nat
        } else {
            0nat
        })
    }
}

/// The place of the first batch from place `i` on that is in the state.
pub open spec fn find_state(sealed: Seq<SealedModel>, state: CreateState, i: int) -> Option<int>
    decreases sealed.len() - i,
{
    if i >= sealed.len() {
        None
    } else if sealed[i].state == state {
        Some(i)
    } else {
        find_state(sealed, state, i + 1)
    }
}

/// The place of the first batch from place `i` on that has the sequence.
pub open spec fn find_seq(sealed: Seq<SealedModel>, object_seq: u64, i: int) -> Option<int>
    decreases sealed.len() - i,
{
    if i >= sealed.len() {
        None
    } else if sealed[i].object_seq == object_seq {
        Some(i)
    } else {
        find_seq(sealed, object_seq, i + 1)
    }
}

/// The first place from `i` on at which the sequence is listed.
pub open spec fn place_of(seqs: Seq<u64>, object_seq: u64, i: int) -> Option<int>
    decreases seqs.len() - i,
{
    if i >= seqs.len() {
        None
    } else if seqs[i] == object_seq {
        Some(i)
    } else {
        place_of(seqs, object_seq, i + 1)
    }
}

/// The larger of two optional sequences; none is smaller than any.
pub open spec fn larger(a: Option<u64>, b: Option<u64>) -> Option<u64> {
    match (a, b) {
        (Some(x), Some(y)) => if x < y {
            Some(y)
        } else {
            Some(x)
        },
        (Some(x), None) => Some(x),
        (None, _) => b,
    }
}

/// The largest sequence among the batches that failed.
pub open spec fn largest_failed(sealed: Seq<SealedModel>) -> Option<u64>
    decreases sealed.len(),
{
    if sealed.len() == 0 {
        None
    } else if sealed.last().state is Failed {
        larger(largest_failed(sealed.drop_last()), Some(sealed.last().object_seq))
    } else {
        largest_failed(sealed.drop_last())
    }
}

/// The answers that fail pending appends.
pub open spec fn fail_pending(pending: Seq<PendingModel>, failure: Failure) -> Seq<ActionModel> {
    pending.map_values(
        |p: PendingModel| ActionModel::AnswerAppend { waiter: p.waiter, result: Err(failure) },
    )
}

/// The answers that acknowledge pending appends.
pub open spec fn acknowledge(pending: Seq<PendingModel>) -> Seq<ActionModel> {
    pending.map_values(
        |p: PendingModel| ActionModel::AnswerAppend { waiter: p.waiter, result: Ok(p.last_ids) },
    )
}

/// The answers that fail stalled appends.
pub open spec fn fail_stalled(stalled: Seq<StalledModel>, failure: Failure) -> Seq<ActionModel> {
    stalled.map_values(
        |s: StalledModel| ActionModel::AnswerAppend { waiter: s.waiter, result: Err(failure) },
    )
}

/// The answers that fail durability waiters.
pub open spec fn fail_durable(waiters: Seq<DurableWaiter>, failure: Failure) -> Seq<ActionModel> {
    waiters.map_values(
        |w: DurableWaiter| ActionModel::Answer { waiter: w.waiter, result: Err(failure) },
    )
}

/// The same answer to each of the waiters.
pub open spec fn answer_all(waiters: Seq<u64>, result: Result<(), Failure>) -> Seq<ActionModel> {
    waiters.map_values(|waiter: u64| ActionModel::Answer { waiter, result })
}

/// The answers that fail the waiters of sealed batches.
pub open spec fn fail_sealed(sealed: Seq<SealedModel>, failure: Failure) -> Seq<ActionModel>
    decreases sealed.len(),
{
    if sealed.len() == 0 {
        Seq::empty()
    } else {
        fail_sealed(sealed.drop_last(), failure) + fail_pending(sealed.last().waiters, failure)
            + answer_all(sealed.last().seal_waiters, Err(failure))
    }
}

/// Whether the region is durable through the id that is waited for.
pub open spec fn is_durable(waiter: DurableWaiter, max_ids: Map<u64, EntryId>) -> bool {
    waiter.entry_id <= largest_id(max_ids, waiter.region_id.0)
}

/// The waiters whose entries are not durable yet.
pub open spec fn still_waiting(waiters: Seq<DurableWaiter>, max_ids: Map<u64, EntryId>) -> Seq<
    DurableWaiter,
>
    decreases waiters.len(),
{
    if waiters.len() == 0 {
        Seq::empty()
    } else {
        let rest = still_waiting(waiters.drop_last(), max_ids);
        if is_durable(waiters.last(), max_ids) {
            rest
        } else {
            rest.push(waiters.last())
        }
    }
}

/// The answers to the waiters whose entries are durable.
pub open spec fn answer_durable(waiters: Seq<DurableWaiter>, max_ids: Map<u64, EntryId>) -> Seq<
    ActionModel,
>
    decreases waiters.len(),
{
    if waiters.len() == 0 {
        Seq::empty()
    } else {
        let rest = answer_durable(waiters.drop_last(), max_ids);
        if is_durable(waiters.last(), max_ids) {
            rest.push(ActionModel::Answer { waiter: waiters.last().waiter, result: Ok(()) })
        } else {
            rest
        }
    }
}

/// The issued ids once the ids of `last_ids` were handed out.
pub open spec fn raise_issued(issued: Map<u64, EntryId>, last_ids: Map<u64, EntryId>) -> Map<
    u64,
    EntryId,
> {
    Map::new(
        |region: u64| issued.contains_key(region) || last_ids.contains_key(region),
        |region: u64|
            if last_ids.contains_key(region) && largest_id(issued, region) < last_ids[region] {
                last_ids[region]
            } else {
                largest_id(issued, region)
            },
    )
}

/// The watermarks once `entry_id` is recorded; a watermark never moves down.
pub open spec fn raise_watermark(
    obsolete: Map<u64, EntryId>,
    region: u64,
    entry_id: EntryId,
) -> Map<u64, EntryId> {
    if largest_id(obsolete, region) < entry_id {
        obsolete.insert(region, entry_id)
    } else {
        obsolete.insert(region, largest_id(obsolete, region))
    }
}

/// The objects of `found` that are not being deleted yet.
pub open spec fn not_deleting(found: Seq<u64>, deleting: Set<u64>) -> Seq<u64>
    decreases found.len(),
{
    if found.len() == 0 {
        Seq::empty()
    } else {
        let rest = not_deleting(found.drop_last(), deleting);
        if deleting.contains(found.last()) {
            rest
        } else {
            rest.push(found.last())
        }
    }
}

/// The error of an exhausted sequence.
pub open spec fn exhausted() -> Error {
    Error::WalObjectSequenceExhausted { last_object_seq: (OBJECT_SEQ_LIMIT - 1) as u64 }
}

impl ActorModel {
    /// Asks for one more thing to be done.
    pub open spec fn act(self, action: ActionModel) -> ActorModel {
        ActorModel { actions: self.actions.push(action), ..self }
    }

    /// Asks for more things to be done.
    pub open spec fn act_all(self, actions: Seq<ActionModel>) -> ActorModel {
        ActorModel { actions: self.actions + actions, ..self }
    }

    /// Answers an append.
    pub open spec fn answer_append(
        self,
        waiter: u64,
        result: Result<Map<u64, EntryId>, Failure>,
    ) -> ActorModel {
        self.act(ActionModel::AnswerAppend { waiter, result })
    }

    /// Answers another request.
    pub open spec fn answer(self, waiter: u64, result: Result<(), Failure>) -> ActorModel {
        self.act(ActionModel::Answer { waiter, result })
    }

    /// How an entry that never became durable fails: a store that was stopped meanwhile says so.
    pub open spec fn failure(self, error: Error) -> Failure {
        if self.stopped {
            Failure::Own(Error::ObjectStoreWalStopped)
        } else {
            Failure::Shared(error)
        }
    }

    /// The result that the terminal error stands for.
    pub open spec fn health(self) -> Result<(), Failure> {
        match self.terminal {
            Some(error) => Err(Failure::Shared(error)),
            None => Ok(()),
        }
    }

    /// Records an error as terminal unless one is recorded already.
    pub open spec fn set_terminal(self, error: Error) -> ActorModel {
        if self.terminal is Some {
            self
        } else {
            ActorModel { terminal: Some(error), ..self }
        }
    }

    /// Records what stop reports unless something is recorded already.
    pub open spec fn lose_backlog(self, error: Error) -> ActorModel {
        if self.ack_mode == AckMode::Enqueued && self.stop_error is None {
            ActorModel { stop_error: Some(error), ..self }
        } else {
            self
        }
    }

    /// Fails the waiters of the open batch, the stalled appends and the durability waiters.
    pub open spec fn fail_unacknowledged(self, failure: Failure) -> ActorModel {
        ActorModel {
            pending: Seq::empty(),
            stalled: Seq::empty(),
            durable_waiters: Seq::empty(),
            ..self.act_all(fail_pending(self.pending, failure)).act_all(
                fail_stalled(self.stalled, failure),
            ).act_all(fail_durable(self.durable_waiters, failure))
        }
    }

    /// Drops every batch that is not durable and fails everything that is not acknowledged.
    pub open spec fn drop_backlog(self, failure: Failure) -> ActorModel {
        ActorModel {
            draining: false,
            sealed: Seq::empty(),
            batch: self.batch.cleared(),
            ..self.act_all(fail_sealed(self.sealed, failure))
        }.fail_unacknowledged(failure)
    }

    /// Records a terminal error and fails everything that is not acknowledged. Creates in flight
    /// run to completion, but their outcome is ignored.
    #[verifier::opaque]
    pub open spec fn poison(self, error: Error) -> ActorModel {
        let recorded = self.set_terminal(error);
        let first = recorded.terminal->0;
        recorded.drop_backlog(recorded.failure(first)).lose_backlog(first)
    }

    /// Drops every batch that is not durable after the batch `object_seq` failed to be created
    /// while no later object was created. Its sequence is used again.
    #[verifier::opaque]
    pub open spec fn roll_back(self, object_seq: u64, error: Error) -> ActorModel {
        ActorModel {
            next_object_seq: Some(object_seq),
            unresolved_object_seq: larger(
                self.unresolved_object_seq,
                largest_failed(self.sealed),
            ),
            ..self
        }.drop_backlog(self.failure(error)).lose_backlog(error)
    }

    /// Starts the creates of pending batches from place `i` on, in sequence order, while fewer
    /// than [`MAX_IN_FLIGHT_CREATES`] are in flight.
    pub open spec fn start_from(self, i: int, running: nat) -> ActorModel
        decreases self.sealed.len() - i,
    {
        if i < 0 || i >= self.sealed.len() || running >= MAX_IN_FLIGHT_CREATES {
            self
        } else if self.sealed[i].state != CreateState::Pending {
            self.start_from(i + 1, running)
        } else {
            let batch = self.sealed[i];
            ActorModel {
                sealed: self.sealed.update(
                    i,
                    SealedModel {
                        state: CreateState::InFlight,
                        attempts: if batch.attempts == u32::MAX {
                            u32::MAX
                        } else {
                            (batch.attempts + 1) as u32
                        },
                        ..batch
                    },
                ),
                creates: self.creates.push(batch.object_seq),
                ..self
            }.act(
                ActionModel::Create {
                    object_seq: batch.object_seq,
                    delayed: batch.attempts != 0,
                },
            ).start_from(i + 1, running + 1)
        }
    }

    /// Starts the creates that free slots allow. Nothing starts while the pipeline drains, and
    /// nothing once stop began, except the backlog of the enqueued mode.
    #[verifier::opaque]
    pub open spec fn start_creates(self) -> ActorModel {
        if self.draining || (self.stopped && self.ack_mode == AckMode::Durable) {
            self
        } else {
            self.start_from(0, in_flight(self.sealed))
        }
    }

    /// The batch that sealing the open batch under `object_seq` gives.
    pub open spec fn sealed_batch(self, object_seq: u64) -> SealedModel {
        let groups = grouped(entry_records(self.batch.entries));
        SealedModel {
            object_seq,
            bytes: object_bytes(
                Header { object_seq, writer_instance: self.writer_instance },
                groups,
            ),
            footer: footer_of(groups),
            first_admitted_at: self.batch.first_admitted_at,
            attempts: 0,
            waiters: self.pending,
            seal_waiters: Seq::empty(),
            state: CreateState::Pending,
        }
    }

    /// Whether the open batch can be sealed.
    pub open spec fn seals(self) -> bool {
        &&& self.batch.entries.len() > 0
        &&& self.terminal is None
        &&& self.next_object_seq is Some
        &&& unencodable(entry_records(self.batch.entries)) is None
    }

    /// The open batch becomes the last of the sealed batches, under the next sequence. The last
    /// sequence is used, but no later batch can be allocated one.
    pub open spec fn sealed_noted(self) -> ActorModel {
        let object_seq = self.next_object_seq->0;
        let last = object_seq + 1 >= OBJECT_SEQ_LIMIT;
        let advanced = ActorModel {
            batch: self.batch.cleared(),
            next_object_seq: if last {
                None
            } else {
                Some((object_seq + 1) as u64)
            },
            pending: Seq::empty(),
            sealed: self.sealed.push(self.sealed_batch(object_seq)),
            ..self
        };
        if last {
            advanced.set_terminal(Error::WalObjectSequenceExhausted { last_object_seq: object_seq })
        } else {
            advanced
        }
    }

    /// Seals the open batch under the next sequence and starts its create when a slot is free.
    #[verifier::opaque]
    pub open spec fn flush(self) -> ActorModel {
        if self.batch.entries.len() == 0 {
            self
        } else if self.terminal is Some {
            self.fail_unacknowledged(Failure::Shared(self.terminal->0))
        } else if self.next_object_seq is None {
            self.poison(exhausted())
        } else if let Some(reason) = unencodable(entry_records(self.batch.entries)) {
            ActorModel { batch: self.batch.cleared(), ..self }.poison(
                Error::UnencodableWalObject { reason },
            )
        } else {
            self.sealed_noted().start_creates()
        }
    }

    /// The number of bytes that are not durable.
    pub open spec fn backlog_bytes(self) -> nat {
        total_size(self.batch.entries) + sealed_bytes(self.sealed)
    }

    /// When the oldest entry that is not durable was admitted.
    pub open spec fn oldest(self) -> Option<u64> {
        if self.sealed.len() > 0 {
            self.sealed[0].first_admitted_at
        } else {
            self.batch.first_admitted_at
        }
    }

    /// Whether the backlog reaches the size or the age threshold.
    pub open spec fn at_threshold(self, now: u64) -> bool {
        ||| self.backlog_bytes() >= self.max_unpersisted_bytes
        ||| (self.oldest() matches Some(at) && (if now >= at {
            now - at
        } else {
            0
        }) >= self.max_unpersisted_age)
    }

    /// Seals the open batch when no create is in flight, so that a stalled append has an upload to
    /// wait for.
    pub open spec fn ensure_create_in_flight(self) -> ActorModel {
        if find_state(self.sealed, CreateState::InFlight, 0) is None {
            self.flush()
        } else {
            self
        }
    }

    /// Enters the entries into the open batch under the next sequence.
    #[verifier::opaque]
    pub open spec fn enter(
        self,
        object_seq: u64,
        entries: Seq<Entry>,
        waiter: u64,
        now: u64,
    ) -> ActorModel {
        let last_ids = placed_last_ids(object_seq, self.batch.entries, entries);
        let entered = ActorModel {
            batch: self.batch.with(object_seq, entries, now),
            issued: raise_issued(self.issued, last_ids),
            ..self
        };
        let noted = match self.ack_mode {
            AckMode::Durable => ActorModel {
                pending: self.pending.push(PendingModel { waiter, last_ids }),
                ..entered
            },
            AckMode::Enqueued => entered.answer_append(waiter, Ok(last_ids)),
        };
        if noted.batch.full() {
            noted.flush()
        } else {
            noted
        }
    }

    /// Admits an append into the open batch, behind a seal of the batch if its positions do not
    /// suffice.
    #[verifier::opaque]
    pub open spec fn take_in(self, entries: Seq<Entry>, waiter: u64, now: u64) -> ActorModel {
        let seals_first = self.batch.entries.len() > 0 && self.batch.exhausted(entries) is Some;
        let open = if seals_first {
            self.flush()
        } else {
            self
        };
        if seals_first && open.terminal is Some {
            open.answer_append(waiter, Err(Failure::Shared(open.terminal->0)))
        } else if open.next_object_seq is None {
            let poisoned = open.poison(exhausted());
            poisoned.answer_append(waiter, Err(Failure::Shared(poisoned.terminal->0)))
        } else if let Some(region_id) = open.batch.exhausted(entries) {
            open.answer_append(
                waiter,
                Err(Failure::Own(Error::WalEntryPositionExhausted { region_id })),
            )
        } else {
            open.enter(open.next_object_seq->0, entries, waiter, now)
        }
    }

    /// An append arrives.
    pub open spec fn append(self, entries: Seq<Entry>, waiter: u64, now: u64) -> ActorModel {
        if self.stopped {
            self.answer_append(waiter, Err(Failure::Own(Error::ObjectStoreWalStopped)))
        } else if self.terminal is Some {
            self.answer_append(waiter, Err(Failure::Shared(self.terminal->0)))
        } else if self.ack_mode == AckMode::Enqueued && self.at_threshold(now) {
            ActorModel {
                stalled: self.stalled.push(StalledModel { entries, waiter }),
                ..self
            }.ensure_create_in_flight()
        } else {
            self.take_in(entries, waiter, now)
        }
    }

    /// Admits the stalled appends in arrival order while the backlog is below the thresholds.
    pub open spec fn release_stalled(self, now: u64) -> ActorModel
        decreases self.stalled.len(),
    {
        if self.stalled.len() == 0 {
            self
        } else if self.stopped {
            ActorModel { stalled: Seq::empty(), ..self }.act_all(
                fail_stalled(self.stalled, Failure::Own(Error::ObjectStoreWalStopped)),
            )
        } else if self.at_threshold(now) {
            self.ensure_create_in_flight()
        } else {
            let first = self.stalled[0];
            let next = ActorModel { stalled: self.stalled.drop_first(), ..self }.take_in(
                first.entries,
                first.waiter,
                now,
            );
            // Admitting an append never adds to the stalled ones.
            if next.stalled.len() < self.stalled.len() {
                next.release_stalled(now)
            } else {
                next
            }
        }
    }

    /// Answers the waiters whose entries are durable now.
    pub open spec fn resolve_durable_waiters(self) -> ActorModel {
        ActorModel {
            durable_waiters: still_waiting(self.durable_waiters, self.catalog.max_ids),
            ..self
        }.act_all(answer_durable(self.durable_waiters, self.catalog.max_ids))
    }

    /// Whether the catalog takes the object at the front.
    pub open spec fn indexes_front(self) -> bool {
        self.catalog.rejection(self.sealed[0].object_seq, self.sealed[0].footer) is None
    }

    /// Indexes the created object at the front and acknowledges its waiters. An object that the
    /// catalog rejects poisons the store.
    pub open spec fn index_front(self) -> ActorModel {
        let front = self.sealed[0];
        if let Some(reason) = self.catalog.rejection(front.object_seq, front.footer) {
            self.poison(Error::CorruptedWalObject { reason })
        } else {
            ActorModel {
                catalog: self.catalog.inserted(front.object_seq, front.footer),
                sealed: self.sealed.drop_first(),
                unresolved_object_seq: if self.unresolved_object_seq matches Some(seq) && seq
                    <= front.object_seq {
                    None
                } else {
                    self.unresolved_object_seq
                },
                ..self.act_all(acknowledge(front.waiters)).act_all(
                    answer_all(front.seal_waiters, Ok(())),
                )
            }.resolve_durable_waiters()
        }
    }

    /// Indexes the batches at the front as far as they are created, and resolves a failed batch at
    /// the front once nothing is in flight.
    pub open spec fn settle_front(self) -> ActorModel
        decreases self.sealed.len(),
    {
        if self.sealed.len() == 0 {
            self
        } else {
            let front = self.sealed[0];
            match front.state {
                CreateState::Pending => self,
                CreateState::InFlight => self,
                CreateState::Created => if self.indexes_front() {
                    self.index_front().settle_front()
                } else {
                    self.index_front()
                },
                CreateState::Failed(error) => if find_state(
                    self.sealed,
                    CreateState::InFlight,
                    0,
                ) is Some {
                    self
                } else if let Some(later) = find_state(self.sealed, CreateState::Created, 1) {
                    self.poison(
                        Error::WalObjectHistoryGap {
                            object_seq: front.object_seq,
                            later_object_seq: self.sealed[later].object_seq,
                        },
                    )
                } else {
                    self.roll_back(front.object_seq, error)
                },
            }
        }
    }

    /// Settles what can be settled, then starts creates and admits stalled appends.
    pub open spec fn settle(self, now: u64) -> ActorModel {
        self.settle_front().start_creates().release_stalled(now)
    }

    /// The batch at place `i` gets another state.
    pub open spec fn with_state(self, i: int, state: CreateState) -> ActorModel {
        ActorModel {
            sealed: self.sealed.update(i, SealedModel { state, ..self.sealed[i] }),
            ..self
        }
    }

    /// A create runs no longer.
    pub open spec fn create_done(self, object_seq: u64) -> ActorModel {
        match place_of(self.creates, object_seq, 0) {
            Some(i) => ActorModel { creates: self.creates.remove(i), ..self },
            None => self,
        }
    }

    /// A create completed.
    pub open spec fn create_completed(
        self,
        object_seq: u64,
        result: Result<(), Error>,
        now: u64,
    ) -> ActorModel {
        let done = self.create_done(object_seq);
        // A batch the store gave up on: the object may exist, but nothing was acknowledged for it.
        if let Some(i) = find_seq(self.sealed, object_seq, 0) {
            match result {
                Ok(()) => done.with_state(i, CreateState::Created).settle(now),
                Err(error) => if error is WalObjectStore {
                    if self.ack_mode == AckMode::Enqueued && !self.stopped {
                        done.with_state(i, CreateState::Pending).settle(now)
                    } else {
                        ActorModel {
                            draining: true,
                            ..done.with_state(i, CreateState::Failed(error))
                        }.settle(now)
                    }
                } else {
                    done.poison(error)
                },
            }
        } else {
            done
        }
    }

    /// A caller waits until the region is durable through the id.
    pub open spec fn wait_durable(
        self,
        region_id: RegionId,
        entry_id: EntryId,
        waiter: u64,
    ) -> ActorModel {
        if self.terminal is Some {
            self.answer(waiter, self.health())
        } else if entry_id <= largest_id(self.catalog.max_ids, region_id.0) {
            self.answer(waiter, Ok(()))
        } else if self.stop_error is Some {
            self.answer(waiter, Err(Failure::Shared(self.stop_error->0)))
        } else if entry_id > largest_id(self.issued, region_id.0) {
            // An id that was never handed out is not in the backlog.
            self.answer(waiter, Ok(()))
        } else {
            ActorModel {
                durable_waiters: self.durable_waiters.push(
                    DurableWaiter { region_id, entry_id, waiter },
                ),
                ..self
            }
        }
    }

    /// The sequence that a failed create would roll back to.
    pub open spec fn lowest_object_seq(self) -> u64 {
        if self.sealed.len() > 0 {
            self.sealed[0].object_seq
        } else {
            self.next_object_seq->0
        }
    }

    /// Whether nothing is known to depend on the sequence of the next object.
    pub open spec fn settled_seq(self) -> bool {
        self.batch.entries.len() == 0 && (self.unresolved_object_seq matches Some(seq) ==> seq
            < self.next_object_seq->0)
    }

    /// Whether ids at or below `entry_id` are out of reach without raising the sequence.
    pub open spec fn needs_no_floor(self, region: u64, entry_id: EntryId) -> bool {
        ||| self.stopped
        ||| (self.terminal is None && {
            ||| (self.ack_mode == AckMode::Enqueued && entry_id <= largest_id(self.issued, region))
            ||| self.next_object_seq is None
            ||| self.lowest_object_seq() >= floor_of(entry_id as int)
        })
    }

    /// Why the sequence cannot be raised above `entry_id`, if it cannot.
    pub open spec fn floor_failure(self, region: u64, entry_id: EntryId) -> Option<Failure> {
        if self.needs_no_floor(region, entry_id) {
            None
        } else if self.terminal is Some {
            Some(Failure::Shared(self.terminal->0))
        } else if self.sealed.len() > 0 {
            Some(
                Failure::Own(
                    Error::WalObjectSequenceUnsettled { object_seq: self.sealed[0].object_seq },
                ),
            )
        } else if !self.settled_seq() {
            Some(
                Failure::Own(
                    Error::WalObjectSequenceUnsettled { object_seq: self.next_object_seq->0 },
                ),
            )
        } else if floor_of(entry_id as int) >= OBJECT_SEQ_LIMIT {
            Some(Failure::Shared(exhausted()))
        } else {
            None
        }
    }

    /// Moves the sequence of the next object above the object that holds `entry_id` unless it is
    /// there already.
    #[verifier::opaque]
    pub open spec fn raise_sequence_floor(self, region: u64, entry_id: EntryId) -> ActorModel {
        if self.needs_no_floor(region, entry_id) || self.terminal is Some || self.sealed.len() > 0
            || !self.settled_seq() {
            self
        } else if floor_of(entry_id as int) < OBJECT_SEQ_LIMIT {
            ActorModel { next_object_seq: Some(floor_of(entry_id as int) as u64), ..self }
        } else {
            ActorModel { next_object_seq: None, ..self }.poison(exhausted())
        }
    }

    /// The objects that a collection deletes now.
    pub open spec fn collectible(self) -> Seq<u64> {
        not_deleting(
            self.catalog.deletable(
                self.obsolete,
                0,
                usize::MAX as int,
                usize::MAX as int,
            ).0,
            self.deleting,
        )
    }

    /// Starts deleting the objects that the catalog and the watermarks allow.
    #[verifier::opaque]
    pub open spec fn collect_garbage(self) -> ActorModel {
        if self.stopped || self.terminal is Some {
            self
        } else {
            let found = self.collectible();
            ActorModel { deleting: self.deleting.union(found.to_set()), ..self }.act_all(
                found.map_values(|object_seq: u64| ActionModel::Delete { object_seq }),
            )
        }
    }

    /// The watermark of a region is to be moved up.
    pub open spec fn obsolete_upto(
        self,
        region_id: RegionId,
        entry_id: EntryId,
        watermark: EntryId,
        waiter: u64,
    ) -> ActorModel {
        let raised = self.raise_sequence_floor(region_id.0, entry_id);
        match self.floor_failure(region_id.0, entry_id) {
            Some(failure) => raised.answer(waiter, Err(failure)),
            None => ActorModel {
                obsolete: raise_watermark(raised.obsolete, region_id.0, watermark),
                ..raised
            }.collect_garbage().answer(waiter, Ok(())),
        }
    }

    /// A delete completed.
    pub open spec fn delete_completed(self, object_seq: u64, deleted: bool) -> ActorModel {
        ActorModel {
            catalog: if deleted {
                self.catalog.removed(object_seq)
            } else {
                self.catalog
            },
            deleting: self.deleting.remove(object_seq),
            ..self
        }
    }

    /// Begins stopping: the durable mode drops what is not being created, the enqueued mode seals
    /// its backlog so that it is uploaded.
    pub open spec fn begin_exit(self, waiter: u64) -> ActorModel {
        let stopping = ActorModel { stop: self.stop.push(waiter), ..self };
        let failure = Failure::Own(Error::ObjectStoreWalStopped);
        match self.ack_mode {
            AckMode::Durable => {
                let dropped = ActorModel {
                    batch: self.batch.cleared(),
                    pending: Seq::empty(),
                    ..stopping.act_all(fail_pending(self.pending, failure))
                };
                match find_state(self.sealed, CreateState::Pending, 0) {
                    None => dropped,
                    Some(i) => ActorModel {
                        next_object_seq: Some(self.sealed[i].object_seq),
                        sealed: self.sealed.take(i),
                        ..dropped.act_all(fail_sealed(self.sealed.skip(i), failure))
                    },
                }
            },
            AckMode::Enqueued => ActorModel {
                stalled: Seq::empty(),
                ..stopping.act_all(fail_stalled(self.stalled, failure))
            }.flush(),
        }
    }

    /// Whether the callers of stop can be answered: every batch is settled and every create and
    /// delete has completed.
    pub open spec fn may_exit(self) -> bool {
        &&& self.stop.len() > 0
        &&& self.sealed.len() == 0
        &&& self.creates.len() == 0
        &&& self.deleting == Set::<u64>::empty()
    }

    /// Answers the callers of stop.
    pub open spec fn finish_exit(self) -> ActorModel {
        if self.may_exit() {
            ActorModel {
                durable_waiters: Seq::empty(),
                stop: Seq::empty(),
                stop_error: None,
                ..self.act_all(
                    fail_durable(
                        self.durable_waiters,
                        Failure::Own(Error::ObjectStoreWalStopped),
                    ),
                ).act_all(
                    answer_all(
                        self.stop,
                        match self.stop_error {
                            Some(error) => Err(Failure::Shared(error)),
                            None => Ok(()),
                        },
                    ),
                )
            }
        } else {
            self
        }
    }

    /// A caller asks to seal the open batch and waits for its object.
    pub open spec fn seal_requested(self, waiter: u64) -> ActorModel {
        if self.stopped {
            self.answer(waiter, Err(Failure::Own(Error::ObjectStoreWalStopped)))
        } else {
            let flushed = self.flush();
            if self.seals() {
                let i = flushed.sealed.len() - 1;
                let batch = flushed.sealed[i];
                ActorModel {
                    sealed: flushed.sealed.update(
                        i,
                        SealedModel { seal_waiters: batch.seal_waiters.push(waiter), ..batch },
                    ),
                    ..flushed
                }
            } else {
                flushed.answer(waiter, flushed.health())
            }
        }
    }

    /// The flush interval elapsed.
    pub open spec fn tick(self) -> ActorModel {
        if self.stopped {
            self
        } else {
            self.flush()
        }
    }
}

/// Starting creates changes nothing but the states of the batches, the creates that run and what
/// is to be done.
pub proof fn lemma_start_frame(actor: ActorModel, i: int, running: nat)
    ensures
        ({
            let started = actor.start_from(i, running);
            &&& started == (ActorModel {
                sealed: started.sealed,
                creates: started.creates,
                actions: started.actions,
                ..actor
            })
            &&& started.sealed.len() == actor.sealed.len()
        }),
    decreases actor.sealed.len() - i,
{
    if i < 0 || i >= actor.sealed.len() || running >= MAX_IN_FLIGHT_CREATES {
    } else if actor.sealed[i].state != CreateState::Pending {
        lemma_start_frame(actor, i + 1, running);
    } else {
        let batch = actor.sealed[i];
        let next = ActorModel {
            sealed: actor.sealed.update(
                i,
                SealedModel {
                    state: CreateState::InFlight,
                    attempts: if batch.attempts == u32::MAX {
                        u32::MAX
                    } else {
                        (batch.attempts + 1) as u32
                    },
                    ..batch
                },
            ),
            creates: actor.creates.push(batch.object_seq),
            ..actor
        }.act(
            ActionModel::Create { object_seq: batch.object_seq, delayed: batch.attempts != 0 },
        );
        lemma_start_frame(next, i + 1, running + 1);
    }
}

/// The first place of a sequence.
pub proof fn lemma_first_place(seqs: Seq<u64>, object_seq: u64, at: int)
    requires
        0 <= at < seqs.len(),
        seqs[at] == object_seq,
        forall|k: int| 0 <= k < at ==> #[trigger] seqs[k] != object_seq,
    ensures
        place_of(seqs, object_seq, 0) == Some(at),
{
    lemma_first_place_from(seqs, object_seq, at, 0);
}

proof fn lemma_first_place_from(seqs: Seq<u64>, object_seq: u64, at: int, i: int)
    requires
        0 <= i <= at < seqs.len(),
        seqs[at] == object_seq,
        forall|k: int| 0 <= k < at ==> #[trigger] seqs[k] != object_seq,
    ensures
        place_of(seqs, object_seq, i) == Some(at),
    decreases at - i,
{
    if i < at {
        assert(seqs[i] != object_seq);
        lemma_first_place_from(seqs, object_seq, at, i + 1);
    }
}

/// A sequence that is not listed has no place.
pub proof fn lemma_no_place(seqs: Seq<u64>, object_seq: u64)
    requires
        forall|k: int| 0 <= k < seqs.len() ==> #[trigger] seqs[k] != object_seq,
    ensures
        place_of(seqs, object_seq, 0) is None,
{
    lemma_no_place_from(seqs, object_seq, 0);
}

proof fn lemma_no_place_from(seqs: Seq<u64>, object_seq: u64, i: int)
    requires
        0 <= i <= seqs.len(),
        forall|k: int| 0 <= k < seqs.len() ==> #[trigger] seqs[k] != object_seq,
    ensures
        place_of(seqs, object_seq, i) is None,
    decreases seqs.len() - i,
{
    if i < seqs.len() {
        assert(seqs[i] != object_seq);
        lemma_no_place_from(seqs, object_seq, i + 1);
    }
}

/// A batch that is sealed is the last of the pipeline.
pub proof fn lemma_flush_seals(actor: ActorModel)
    requires
        actor.seals(),
    ensures
        actor.flush().sealed.len() == actor.sealed.len() + 1,
{
    reveal(ActorModel::flush);
    reveal(ActorModel::start_creates);
    let noted = actor.sealed_noted();
    lemma_start_frame(noted, 0, in_flight(noted.sealed));
}

/// Sealing the open batch leaves the stalled appends as they are or fails all of them.
pub proof fn lemma_flush_keeps_stalled(actor: ActorModel)
    ensures
        actor.flush().stalled == actor.stalled || actor.flush().stalled.len() == 0,
{
    reveal(ActorModel::flush);
    reveal(ActorModel::start_creates);
    reveal(ActorModel::poison);
    if actor.seals() {
        let noted = actor.sealed_noted();
        lemma_start_frame(noted, 0, in_flight(noted.sealed));
    }
}

/// Admitting an append never adds to the stalled ones.
pub proof fn lemma_take_in_keeps_stalled(
    actor: ActorModel,
    entries: Seq<Entry>,
    waiter: u64,
    now: u64,
)
    ensures
        actor.take_in(entries, waiter, now).stalled == actor.stalled || actor.take_in(
            entries,
            waiter,
            now,
        ).stalled.len() == 0,
{
    reveal(ActorModel::take_in);
    reveal(ActorModel::enter);
    reveal(ActorModel::poison);
    lemma_flush_keeps_stalled(actor);
    let seals_first = actor.batch.entries.len() > 0 && actor.batch.exhausted(entries) is Some;
    let open = if seals_first {
        actor.flush()
    } else {
        actor
    };
    if !(seals_first && open.terminal is Some) && open.next_object_seq is Some
        && open.batch.exhausted(entries) is None {
        let object_seq = open.next_object_seq->0;
        let last_ids = placed_last_ids(object_seq, open.batch.entries, entries);
        let entered = ActorModel {
            batch: open.batch.with(object_seq, entries, now),
            issued: raise_issued(open.issued, last_ids),
            ..open
        };
        let noted = match open.ack_mode {
            AckMode::Durable => ActorModel {
                pending: open.pending.push(PendingModel { waiter, last_ids }),
                ..entered
            },
            AckMode::Enqueued => entered.answer_append(waiter, Ok(last_ids)),
        };
        lemma_flush_keeps_stalled(noted);
    }
}

} // verus!
