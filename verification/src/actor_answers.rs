//! Every request is answered exactly once.
use vstd::prelude::*;

use crate::actor_laws::Event;
use crate::actor_model::{
    acknowledge, answer_all, answer_durable, fail_durable, fail_pending, fail_sealed, fail_stalled,
    find_state, in_flight, is_durable, still_waiting, AckMode, ActionModel, ActorModel,
    CreateState, DurableWaiter, PendingModel, SealedModel, StalledModel, MAX_IN_FLIGHT_CREATES,
};
use crate::batch::placed_last_ids;
use crate::error::{Error, Failure};
use crate::id::{EntryId, RegionId};
use crate::logstore::Entry;

verus! {

/// The number of elements that `test` holds of.
pub open spec fn count_where<A>(items: Seq<A>, test: spec_fn(A) -> bool) -> nat
    decreases items.len(),
{
    if items.len() == 0 {
        0
    } else {
        count_where(items.drop_last(), test) + (if test(items.last()) {
            1nat
        } else {
            0nat
        })
    }
}

proof fn lemma_count_where_concat<A>(a: Seq<A>, b: Seq<A>, test: spec_fn(A) -> bool)
    ensures
        count_where(a + b, test) == count_where(a, test) + count_where(b, test),
    decreases b.len(),
{
    if b.len() == 0 {
        assert(a + b =~= a);
    } else {
        lemma_count_where_concat(a, b.drop_last(), test);
        assert((a + b).drop_last() =~= a + b.drop_last());
    }
}

proof fn lemma_count_where_push<A>(a: Seq<A>, x: A, test: spec_fn(A) -> bool)
    ensures
        count_where(a.push(x), test) == count_where(a, test) + (if test(x) {
            1nat
        } else {
            0nat
        }),
{
    assert(a.push(x).drop_last() =~= a);
}

proof fn lemma_count_where_map<A, B>(
    items: Seq<A>,
    map: spec_fn(A) -> B,
    test: spec_fn(B) -> bool,
    same: spec_fn(A) -> bool,
)
    requires
        forall|a: A| #[trigger] test(map(a)) <==> same(a),
    ensures
        count_where(items.map_values(map), test) == count_where(items, same),
    decreases items.len(),
{
    if items.len() > 0 {
        let rest = items.drop_last();
        lemma_count_where_map(rest, map, test, same);
        assert(items.map_values(map).drop_last() =~= rest.map_values(map));
        assert(test(map(items.last())) <==> same(items.last()));
    }
}

/// Whether an action answers the waiter.
pub open spec fn answers(waiter: u64) -> spec_fn(ActionModel) -> bool {
    |action: ActionModel|
        match action {
            ActionModel::AnswerAppend { waiter: answered, .. } => answered == waiter,
            ActionModel::Answer { waiter: answered, .. } => answered == waiter,
            _ => false,
        }
}

/// Whether a pending append is the waiter's.
pub open spec fn pending_of(waiter: u64) -> spec_fn(PendingModel) -> bool {
    |pending: PendingModel| pending.waiter == waiter
}

/// Whether a stalled append is the waiter's.
pub open spec fn stalled_of(waiter: u64) -> spec_fn(StalledModel) -> bool {
    |stalled: StalledModel| stalled.waiter == waiter
}

/// Whether a durability waiter is the waiter.
pub open spec fn durable_of(waiter: u64) -> spec_fn(DurableWaiter) -> bool {
    |durable: DurableWaiter| durable.waiter == waiter
}

/// Whether a number is the waiter's.
pub open spec fn same_as(waiter: u64) -> spec_fn(u64) -> bool {
    |other: u64| other == waiter
}

/// How often the waiter waits for sealed batches.
pub open spec fn in_sealed(sealed: Seq<SealedModel>, waiter: u64) -> nat
    decreases sealed.len(),
{
    if sealed.len() == 0 {
        0
    } else {
        in_sealed(sealed.drop_last(), waiter) + count_where(
            sealed.last().waiters,
            pending_of(waiter),
        ) + count_where(sealed.last().seal_waiters, same_as(waiter))
    }
}

impl ActorModel {
    /// How often the waiter waits for an answer.
    pub open spec fn owed(self, waiter: u64) -> nat {
        count_where(self.pending, pending_of(waiter)) + in_sealed(self.sealed, waiter)
            + count_where(self.stalled, stalled_of(waiter)) + count_where(
            self.durable_waiters,
            durable_of(waiter),
        ) + count_where(self.stop, same_as(waiter))
    }

    /// How often the waiter waits for an answer or was given one.
    pub open spec fn accounted(self, waiter: u64) -> nat {
        self.owed(waiter) + count_where(self.actions, answers(waiter))
    }
}

proof fn lemma_answers_pending(pending: Seq<PendingModel>, failure: Failure, waiter: u64)
    ensures
        count_where(fail_pending(pending, failure), answers(waiter)) == count_where(
            pending,
            pending_of(waiter),
        ),
        count_where(acknowledge(pending), answers(waiter)) == count_where(
            pending,
            pending_of(waiter),
        ),
{
    lemma_count_where_map(
        pending,
        |p: PendingModel| ActionModel::AnswerAppend { waiter: p.waiter, result: Err(failure) },
        answers(waiter),
        pending_of(waiter),
    );
    lemma_count_where_map(
        pending,
        |p: PendingModel| ActionModel::AnswerAppend { waiter: p.waiter, result: Ok(p.last_ids) },
        answers(waiter),
        pending_of(waiter),
    );
}

proof fn lemma_answers_stalled(stalled: Seq<StalledModel>, failure: Failure, waiter: u64)
    ensures
        count_where(fail_stalled(stalled, failure), answers(waiter)) == count_where(
            stalled,
            stalled_of(waiter),
        ),
{
    lemma_count_where_map(
        stalled,
        |s: StalledModel| ActionModel::AnswerAppend { waiter: s.waiter, result: Err(failure) },
        answers(waiter),
        stalled_of(waiter),
    );
}

proof fn lemma_answers_durable(waiters: Seq<DurableWaiter>, failure: Failure, waiter: u64)
    ensures
        count_where(fail_durable(waiters, failure), answers(waiter)) == count_where(
            waiters,
            durable_of(waiter),
        ),
{
    lemma_count_where_map(
        waiters,
        |w: DurableWaiter| ActionModel::Answer { waiter: w.waiter, result: Err(failure) },
        answers(waiter),
        durable_of(waiter),
    );
}

proof fn lemma_answers_all(waiters: Seq<u64>, result: Result<(), Failure>, waiter: u64)
    ensures
        count_where(answer_all(waiters, result), answers(waiter)) == count_where(
            waiters,
            same_as(waiter),
        ),
{
    lemma_count_where_map(
        waiters,
        |w: u64| ActionModel::Answer { waiter: w, result },
        answers(waiter),
        same_as(waiter),
    );
}

proof fn lemma_answers_sealed(sealed: Seq<SealedModel>, failure: Failure, waiter: u64)
    ensures
        count_where(fail_sealed(sealed, failure), answers(waiter)) == in_sealed(sealed, waiter),
    decreases sealed.len(),
{
    if sealed.len() > 0 {
        let rest = sealed.drop_last();
        let batch = sealed.last();
        lemma_answers_sealed(rest, failure, waiter);
        lemma_answers_pending(batch.waiters, failure, waiter);
        lemma_answers_all(batch.seal_waiters, Err(failure), waiter);
        let front = fail_sealed(rest, failure);
        let appends = fail_pending(batch.waiters, failure);
        let seals = answer_all(batch.seal_waiters, Err(failure));
        lemma_count_where_concat(front, appends, answers(waiter));
        lemma_count_where_concat(front + appends, seals, answers(waiter));
    }
}

proof fn lemma_in_sealed_update(
    sealed: Seq<SealedModel>,
    at: int,
    batch: SealedModel,
    waiter: u64,
)
    requires
        0 <= at < sealed.len(),
    ensures
        in_sealed(sealed.update(at, batch), waiter) + count_where(
            sealed[at].waiters,
            pending_of(waiter),
        ) + count_where(sealed[at].seal_waiters, same_as(waiter)) == in_sealed(sealed, waiter)
            + count_where(batch.waiters, pending_of(waiter)) + count_where(
            batch.seal_waiters,
            same_as(waiter),
        ),
    decreases sealed.len(),
{
    let after = sealed.update(at, batch);
    if at == sealed.len() - 1 {
        assert(after.drop_last() =~= sealed.drop_last());
    } else {
        lemma_in_sealed_update(sealed.drop_last(), at, batch, waiter);
        assert(after.drop_last() =~= sealed.drop_last().update(at, batch));
    }
}

proof fn lemma_in_sealed_parts(sealed: Seq<SealedModel>, at: int, waiter: u64)
    requires
        0 <= at <= sealed.len(),
    ensures
        in_sealed(sealed.take(at), waiter) + in_sealed(sealed.skip(at), waiter) == in_sealed(
            sealed,
            waiter,
        ),
    decreases sealed.len(),
{
    if at == sealed.len() {
        assert(sealed.take(at) =~= sealed);
        assert(sealed.skip(at) =~= Seq::empty());
    } else {
        let rest = sealed.drop_last();
        lemma_in_sealed_parts(rest, at, waiter);
        assert(rest.take(at) =~= sealed.take(at));
        assert(sealed.skip(at).drop_last() =~= rest.skip(at));
    }
}

proof fn lemma_fail_unacknowledged_answers(actor: ActorModel, failure: Failure, waiter: u64)
    ensures
        actor.fail_unacknowledged(failure).accounted(waiter) == actor.accounted(waiter),
{
    let test = answers(waiter);
    let a = fail_pending(actor.pending, failure);
    let b = fail_stalled(actor.stalled, failure);
    let c = fail_durable(actor.durable_waiters, failure);
    lemma_answers_pending(actor.pending, failure, waiter);
    lemma_answers_stalled(actor.stalled, failure, waiter);
    lemma_answers_durable(actor.durable_waiters, failure, waiter);
    lemma_count_where_concat(actor.actions, a, test);
    lemma_count_where_concat(actor.actions + a, b, test);
    lemma_count_where_concat(actor.actions + a + b, c, test);
    let after = actor.fail_unacknowledged(failure);
    assert(after.actions == actor.actions + a + b + c);
    assert(count_where(after.pending, pending_of(waiter)) == 0);
    assert(count_where(after.stalled, stalled_of(waiter)) == 0);
    assert(count_where(after.durable_waiters, durable_of(waiter)) == 0);
}

proof fn lemma_drop_backlog_answers(actor: ActorModel, failure: Failure, waiter: u64)
    ensures
        actor.drop_backlog(failure).accounted(waiter) == actor.accounted(waiter),
{
    let answers_sealed = fail_sealed(actor.sealed, failure);
    let dropped = ActorModel {
        draining: false,
        sealed: Seq::empty(),
        batch: actor.batch.cleared(),
        ..actor.act_all(answers_sealed)
    };
    lemma_answers_sealed(actor.sealed, failure, waiter);
    lemma_count_where_concat(actor.actions, answers_sealed, answers(waiter));
    assert(in_sealed(dropped.sealed, waiter) == 0);
    lemma_fail_unacknowledged_answers(dropped, failure, waiter);
}

proof fn lemma_poison_answers(actor: ActorModel, error: Error, waiter: u64)
    ensures
        actor.poison(error).accounted(waiter) == actor.accounted(waiter),
{
    reveal(ActorModel::poison);
    let recorded = actor.set_terminal(error);
    lemma_drop_backlog_answers(recorded, recorded.failure(recorded.terminal->0), waiter);
}

proof fn lemma_roll_back_answers(actor: ActorModel, object_seq: u64, error: Error, waiter: u64)
    ensures
        actor.roll_back(object_seq, error).accounted(waiter) == actor.accounted(waiter),
{
    reveal(ActorModel::roll_back);
    let moved = ActorModel {
        next_object_seq: Some(object_seq),
        unresolved_object_seq: crate::actor_model::larger(
            actor.unresolved_object_seq,
            crate::actor_model::largest_failed(actor.sealed),
        ),
        ..actor
    };
    lemma_drop_backlog_answers(moved, actor.failure(error), waiter);
}

proof fn lemma_start_from_answers(actor: ActorModel, i: int, running: nat, waiter: u64)
    ensures
        actor.start_from(i, running).accounted(waiter) == actor.accounted(waiter),
    decreases actor.sealed.len() - i,
{
    if i < 0 || i >= actor.sealed.len() || running >= MAX_IN_FLIGHT_CREATES {
    } else if actor.sealed[i].state != CreateState::Pending {
        lemma_start_from_answers(actor, i + 1, running, waiter);
    } else {
        let batch = actor.sealed[i];
        let started = SealedModel {
            state: CreateState::InFlight,
            attempts: if batch.attempts == u32::MAX {
                u32::MAX
            } else {
                (batch.attempts + 1) as u32
            },
            ..batch
        };
        let action = ActionModel::Create {
            object_seq: batch.object_seq,
            delayed: batch.attempts != 0,
        };
        let next = ActorModel {
            sealed: actor.sealed.update(i, started),
            creates: actor.creates.push(batch.object_seq),
            ..actor
        }.act(action);
        lemma_in_sealed_update(actor.sealed, i, started, waiter);
        lemma_count_where_push(actor.actions, action, answers(waiter));
        lemma_start_from_answers(next, i + 1, running + 1, waiter);
    }
}

proof fn lemma_start_creates_answers(actor: ActorModel, waiter: u64)
    ensures
        actor.start_creates().accounted(waiter) == actor.accounted(waiter),
{
    reveal(ActorModel::start_creates);
    lemma_start_from_answers(actor, 0, in_flight(actor.sealed), waiter);
}

proof fn lemma_flush_answers(actor: ActorModel, waiter: u64)
    ensures
        actor.flush().accounted(waiter) == actor.accounted(waiter),
{
    reveal(ActorModel::flush);
    if actor.batch.entries.len() == 0 {
    } else if actor.terminal is Some {
        lemma_fail_unacknowledged_answers(actor, Failure::Shared(actor.terminal->0), waiter);
    } else if actor.next_object_seq is None {
        lemma_poison_answers(actor, crate::actor_model::exhausted(), waiter);
    } else if let Some(reason) = crate::format::unencodable(
        crate::actor_model::entry_records(actor.batch.entries),
    ) {
        let emptied = ActorModel { batch: actor.batch.cleared(), ..actor };
        lemma_poison_answers(emptied, Error::UnencodableWalObject { reason }, waiter);
    } else {
        let noted = actor.sealed_noted();
        let batch = actor.sealed_batch(actor.next_object_seq->0);
        assert(noted.sealed.drop_last() =~= actor.sealed);
        assert(count_where(batch.seal_waiters, same_as(waiter)) == 0);
        assert(count_where(noted.pending, pending_of(waiter)) == 0);
        lemma_start_creates_answers(noted, waiter);
    }
}

/// One when the numbers are the same.
pub open spec fn one_if_same(a: u64, b: u64) -> nat {
    if a == b {
        1
    } else {
        0
    }
}

proof fn lemma_act_answers(actor: ActorModel, action: ActionModel, from: u64, waiter: u64)
    requires
        action matches ActionModel::AnswerAppend { waiter: w, .. } ==> w == from,
        action matches ActionModel::Answer { waiter: w, .. } ==> w == from,
        action is AnswerAppend || action is Answer,
    ensures
        actor.act(action).accounted(waiter) == actor.accounted(waiter) + one_if_same(from, waiter),
{
    lemma_count_where_push(actor.actions, action, answers(waiter));
}

proof fn lemma_take_in_answers(
    actor: ActorModel,
    entries: Seq<Entry>,
    from: u64,
    now: u64,
    waiter: u64,
)
    ensures
        actor.take_in(entries, from, now).accounted(waiter) == actor.accounted(waiter)
            + one_if_same(from, waiter),
{
    reveal(ActorModel::take_in);
    reveal(ActorModel::enter);
    let seals_first = actor.batch.entries.len() > 0 && actor.batch.exhausted(entries) is Some;
    let open = if seals_first {
        actor.flush()
    } else {
        actor
    };
    lemma_flush_answers(actor, waiter);
    if seals_first && open.terminal is Some {
        let result = Err(Failure::Shared(open.terminal->0));
        lemma_act_answers(
            open,
            ActionModel::AnswerAppend { waiter: from, result },
            from,
            waiter,
        );
    } else if open.next_object_seq is None {
        let poisoned = open.poison(crate::actor_model::exhausted());
        lemma_poison_answers(open, crate::actor_model::exhausted(), waiter);
        let result = Err(Failure::Shared(poisoned.terminal->0));
        lemma_act_answers(
            poisoned,
            ActionModel::AnswerAppend { waiter: from, result },
            from,
            waiter,
        );
    } else if let Some(region_id) = open.batch.exhausted(entries) {
        let result = Err(Failure::Own(Error::WalEntryPositionExhausted { region_id }));
        lemma_act_answers(
            open,
            ActionModel::AnswerAppend { waiter: from, result },
            from,
            waiter,
        );
    } else {
        let object_seq = open.next_object_seq->0;
        let last_ids = placed_last_ids(object_seq, open.batch.entries, entries);
        let entered = ActorModel {
            batch: open.batch.with(object_seq, entries, now),
            issued: crate::actor_model::raise_issued(open.issued, last_ids),
            ..open
        };
        let noted = match open.ack_mode {
            AckMode::Durable => ActorModel {
                pending: open.pending.push(PendingModel { waiter: from, last_ids }),
                ..entered
            },
            AckMode::Enqueued => entered.answer_append(from, Ok(last_ids)),
        };
        match open.ack_mode {
            AckMode::Durable => {
                lemma_count_where_push(
                    open.pending,
                    PendingModel { waiter: from, last_ids },
                    pending_of(waiter),
                );
            },
            AckMode::Enqueued => {
                lemma_act_answers(
                    entered,
                    ActionModel::AnswerAppend { waiter: from, result: Ok(last_ids) },
                    from,
                    waiter,
                );
            },
        }
        lemma_flush_answers(noted, waiter);
    }
}

proof fn lemma_append_answers(
    actor: ActorModel,
    entries: Seq<Entry>,
    from: u64,
    now: u64,
    waiter: u64,
)
    ensures
        actor.append(entries, from, now).accounted(waiter) == actor.accounted(waiter)
            + one_if_same(from, waiter),
{
    if actor.stopped {
        let result = Err(Failure::Own(Error::ObjectStoreWalStopped));
        lemma_act_answers(
            actor,
            ActionModel::AnswerAppend { waiter: from, result },
            from,
            waiter,
        );
    } else if actor.terminal is Some {
        let result = Err(Failure::Shared(actor.terminal->0));
        lemma_act_answers(
            actor,
            ActionModel::AnswerAppend { waiter: from, result },
            from,
            waiter,
        );
    } else if actor.ack_mode == AckMode::Enqueued && actor.at_threshold(now) {
        let append = StalledModel { entries, waiter: from };
        let stalled = ActorModel { stalled: actor.stalled.push(append), ..actor };
        lemma_count_where_push(actor.stalled, append, stalled_of(waiter));
        lemma_flush_answers(stalled, waiter);
    } else {
        lemma_take_in_answers(actor, entries, from, now, waiter);
    }
}

proof fn lemma_count_where_first<A>(items: Seq<A>, test: spec_fn(A) -> bool)
    requires
        items.len() > 0,
    ensures
        count_where(items, test) == count_where(items.drop_first(), test) + (if test(items[0]) {
            1nat
        } else {
            0nat
        }),
{
    let first = seq![items[0]];
    assert(items =~= first + items.drop_first());
    lemma_count_where_concat(first, items.drop_first(), test);
    assert(first =~= Seq::empty().push(items[0]));
    lemma_count_where_push(Seq::empty(), items[0], test);
}

proof fn lemma_release_answers(actor: ActorModel, now: u64, waiter: u64)
    ensures
        actor.release_stalled(now).accounted(waiter) == actor.accounted(waiter),
    decreases actor.stalled.len(),
{
    if actor.stalled.len() == 0 {
    } else if actor.stopped {
        let failure = Failure::Own(Error::ObjectStoreWalStopped);
        lemma_answers_stalled(actor.stalled, failure, waiter);
        lemma_count_where_concat(
            actor.actions,
            fail_stalled(actor.stalled, failure),
            answers(waiter),
        );
        assert(count_where(actor.release_stalled(now).stalled, stalled_of(waiter)) == 0);
    } else if actor.at_threshold(now) {
        lemma_flush_answers(actor, waiter);
    } else {
        let first = actor.stalled[0];
        let popped = ActorModel { stalled: actor.stalled.drop_first(), ..actor };
        let next = popped.take_in(first.entries, first.waiter, now);
        lemma_count_where_first(actor.stalled, stalled_of(waiter));
        lemma_take_in_answers(popped, first.entries, first.waiter, now, waiter);
        if next.stalled.len() < actor.stalled.len() {
            lemma_release_answers(next, now, waiter);
        }
    }
}

proof fn lemma_resolved(waiters: Seq<DurableWaiter>, max_ids: Map<u64, EntryId>, waiter: u64)
    ensures
        count_where(still_waiting(waiters, max_ids), durable_of(waiter)) + count_where(
            answer_durable(waiters, max_ids),
            answers(waiter),
        ) == count_where(waiters, durable_of(waiter)),
    decreases waiters.len(),
{
    if waiters.len() > 0 {
        let rest = waiters.drop_last();
        lemma_resolved(rest, max_ids, waiter);
        if is_durable(waiters.last(), max_ids) {
            lemma_count_where_push(
                answer_durable(rest, max_ids),
                ActionModel::Answer { waiter: waiters.last().waiter, result: Ok(()) },
                answers(waiter),
            );
        } else {
            lemma_count_where_push(
                still_waiting(rest, max_ids),
                waiters.last(),
                durable_of(waiter),
            );
        }
    }
}

proof fn lemma_index_front_answers(actor: ActorModel, waiter: u64)
    requires
        actor.sealed.len() > 0,
    ensures
        actor.index_front().accounted(waiter) == actor.accounted(waiter),
{
    let front = actor.sealed[0];
    if let Some(reason) = actor.catalog.rejection(front.object_seq, front.footer) {
        lemma_poison_answers(actor, Error::CorruptedWalObject { reason }, waiter);
    } else {
        let after = actor.index_front();
        let max_ids = after.catalog.max_ids;
        let acks = acknowledge(front.waiters);
        let seals = answer_all(front.seal_waiters, Ok(()));
        let resolved = answer_durable(actor.durable_waiters, max_ids);
        let test = answers(waiter);
        lemma_answers_pending(front.waiters, Failure::Own(Error::ObjectStoreWalStopped), waiter);
        lemma_answers_all(front.seal_waiters, Ok(()), waiter);
        lemma_resolved(actor.durable_waiters, max_ids, waiter);
        lemma_count_where_concat(actor.actions, acks, test);
        lemma_count_where_concat(actor.actions + acks, seals, test);
        lemma_count_where_concat(actor.actions + acks + seals, resolved, test);
        assert(after.actions == actor.actions + acks + seals + resolved);
        lemma_in_sealed_parts(actor.sealed, 1, waiter);
        let one = actor.sealed.take(1);
        assert(actor.sealed.skip(1) =~= actor.sealed.drop_first());
        assert(one.drop_last() =~= Seq::empty());
        assert(one.last() == front);
        assert(in_sealed(one, waiter) == count_where(front.waiters, pending_of(waiter))
            + count_where(front.seal_waiters, same_as(waiter))) by {
            assert(in_sealed(one.drop_last(), waiter) == 0);
        }
    }
}

proof fn lemma_settle_front_answers(actor: ActorModel, waiter: u64)
    ensures
        actor.settle_front().accounted(waiter) == actor.accounted(waiter),
    decreases actor.sealed.len(),
{
    if actor.sealed.len() > 0 {
        let front = actor.sealed[0];
        match front.state {
            CreateState::Pending => {},
            CreateState::InFlight => {},
            CreateState::Created => {
                lemma_index_front_answers(actor, waiter);
                if actor.indexes_front() {
                    lemma_settle_front_answers(actor.index_front(), waiter);
                }
            },
            CreateState::Failed(error) => {
                if find_state(actor.sealed, CreateState::InFlight, 0) is Some {
                } else if let Some(later) = find_state(actor.sealed, CreateState::Created, 1) {
                    lemma_poison_answers(
                        actor,
                        Error::WalObjectHistoryGap {
                            object_seq: front.object_seq,
                            later_object_seq: actor.sealed[later].object_seq,
                        },
                        waiter,
                    );
                } else {
                    lemma_roll_back_answers(actor, front.object_seq, error, waiter);
                }
            },
        }
    }
}

proof fn lemma_settle_answers(actor: ActorModel, now: u64, waiter: u64)
    ensures
        actor.settle(now).accounted(waiter) == actor.accounted(waiter),
{
    lemma_settle_front_answers(actor, waiter);
    lemma_start_creates_answers(actor.settle_front(), waiter);
    lemma_release_answers(actor.settle_front().start_creates(), now, waiter);
}

proof fn lemma_create_completed_answers(
    actor: ActorModel,
    object_seq: u64,
    result: Result<(), Error>,
    now: u64,
    waiter: u64,
)
    ensures
        actor.create_completed(object_seq, result, now).accounted(waiter) == actor.accounted(
            waiter,
        ),
{
    let done = actor.create_done(object_seq);
    crate::actor_laws::lemma_find_seq_bounds(actor.sealed, object_seq, 0);
    if let Some(i) = crate::actor_model::find_seq(actor.sealed, object_seq, 0) {
        match result {
            Ok(()) => {
                let noted = done.with_state(i, CreateState::Created);
                lemma_in_sealed_update(done.sealed, i, noted.sealed[i], waiter);
                lemma_settle_answers(noted, now, waiter);
            },
            Err(error) => {
                if error is WalObjectStore {
                    if actor.ack_mode == AckMode::Enqueued && !actor.stopped {
                        let noted = done.with_state(i, CreateState::Pending);
                        lemma_in_sealed_update(done.sealed, i, noted.sealed[i], waiter);
                        lemma_settle_answers(noted, now, waiter);
                    } else {
                        let failed = done.with_state(i, CreateState::Failed(error));
                        let noted = ActorModel { draining: true, ..failed };
                        lemma_in_sealed_update(done.sealed, i, noted.sealed[i], waiter);
                        lemma_settle_answers(noted, now, waiter);
                    }
                } else {
                    lemma_poison_answers(done, error, waiter);
                }
            },
        }
    }
}

proof fn lemma_wait_durable_answers(
    actor: ActorModel,
    region_id: RegionId,
    entry_id: EntryId,
    from: u64,
    waiter: u64,
)
    ensures
        actor.wait_durable(region_id, entry_id, from).accounted(waiter) == actor.accounted(waiter)
            + one_if_same(from, waiter),
{
    let after = actor.wait_durable(region_id, entry_id, from);
    if after.actions.len() > actor.actions.len() {
        lemma_act_answers(actor, after.actions.last(), from, waiter);
    } else {
        lemma_count_where_push(
            actor.durable_waiters,
            DurableWaiter { region_id, entry_id, waiter: from },
            durable_of(waiter),
        );
    }
}

proof fn lemma_no_answers<A>(items: Seq<A>, map: spec_fn(A) -> ActionModel, waiter: u64)
    requires
        forall|a: A| !answers(waiter)(#[trigger] map(a)),
    ensures
        count_where(items.map_values(map), answers(waiter)) == 0,
    decreases items.len(),
{
    if items.len() > 0 {
        lemma_no_answers(items.drop_last(), map, waiter);
        assert(items.map_values(map).drop_last() =~= items.drop_last().map_values(map));
        assert(!answers(waiter)(map(items.last())));
    }
}

proof fn lemma_obsolete_answers(
    actor: ActorModel,
    region_id: RegionId,
    entry_id: EntryId,
    watermark: EntryId,
    from: u64,
    waiter: u64,
)
    ensures
        actor.obsolete_upto(region_id, entry_id, watermark, from).accounted(waiter)
            == actor.accounted(waiter) + one_if_same(from, waiter),
{
    let raised = actor.raise_sequence_floor(region_id.0, entry_id);
    assert(raised.accounted(waiter) == actor.accounted(waiter)) by {
        reveal(ActorModel::raise_sequence_floor);
        lemma_poison_answers(
            ActorModel { next_object_seq: None, ..actor },
            crate::actor_model::exhausted(),
            waiter,
        );
    }
    match actor.floor_failure(region_id.0, entry_id) {
        Some(failure) => {
            lemma_act_answers(
                raised,
                ActionModel::Answer { waiter: from, result: Err(failure) },
                from,
                waiter,
            );
        },
        None => {
            let noted = ActorModel {
                obsolete: crate::actor_model::raise_watermark(
                    raised.obsolete,
                    region_id.0,
                    watermark,
                ),
                ..raised
            };
            let collected = noted.collect_garbage();
            assert(collected.accounted(waiter) == noted.accounted(waiter)) by {
                reveal(ActorModel::collect_garbage);
                let deletes = noted.collectible().map_values(
                    |object_seq: u64| ActionModel::Delete { object_seq },
                );
                lemma_no_answers(
                    noted.collectible(),
                    |object_seq: u64| ActionModel::Delete { object_seq },
                    waiter,
                );
                lemma_count_where_concat(noted.actions, deletes, answers(waiter));
            }
            lemma_act_answers(
                collected,
                ActionModel::Answer { waiter: from, result: Ok(()) },
                from,
                waiter,
            );
        },
    }
}

proof fn lemma_begin_exit_answers(actor: ActorModel, from: u64, waiter: u64)
    ensures
        actor.begin_exit(from).accounted(waiter) == actor.accounted(waiter) + one_if_same(
            from,
            waiter,
        ),
{
    let failure = Failure::Own(Error::ObjectStoreWalStopped);
    let test = answers(waiter);
    let stopping = ActorModel { stop: actor.stop.push(from), ..actor };
    lemma_count_where_push(actor.stop, from, same_as(waiter));
    match actor.ack_mode {
        AckMode::Durable => {
            let appends = fail_pending(actor.pending, failure);
            lemma_answers_pending(actor.pending, failure, waiter);
            lemma_count_where_concat(actor.actions, appends, test);
            crate::actor_laws::lemma_find_state_bounds(actor.sealed, CreateState::Pending, 0);
            if let Some(at) = find_state(actor.sealed, CreateState::Pending, 0) {
                let tail = actor.sealed.skip(at);
                lemma_answers_sealed(tail, failure, waiter);
                lemma_in_sealed_parts(actor.sealed, at, waiter);
                lemma_count_where_concat(
                    actor.actions + appends,
                    fail_sealed(tail, failure),
                    test,
                );
            }
            assert(count_where(actor.begin_exit(from).pending, pending_of(waiter)) == 0);
        },
        AckMode::Enqueued => {
            let appends = fail_stalled(actor.stalled, failure);
            let noted = ActorModel { stalled: Seq::empty(), ..stopping.act_all(appends) };
            lemma_answers_stalled(actor.stalled, failure, waiter);
            lemma_count_where_concat(actor.actions, appends, test);
            assert(count_where(noted.stalled, stalled_of(waiter)) == 0);
            lemma_flush_answers(noted, waiter);
        },
    }
}

proof fn lemma_finish_exit_answers(actor: ActorModel, waiter: u64)
    ensures
        actor.finish_exit().accounted(waiter) == actor.accounted(waiter),
{
    if actor.may_exit() {
        let failure = Failure::Own(Error::ObjectStoreWalStopped);
        let result: Result<(), Failure> = match actor.stop_error {
            Some(error) => Err(Failure::Shared(error)),
            None => Ok(()),
        };
        let waiting = fail_durable(actor.durable_waiters, failure);
        let callers = answer_all(actor.stop, result);
        lemma_answers_durable(actor.durable_waiters, failure, waiter);
        lemma_answers_all(actor.stop, result, waiter);
        lemma_count_where_concat(actor.actions, waiting, answers(waiter));
        lemma_count_where_concat(actor.actions + waiting, callers, answers(waiter));
        let after = actor.finish_exit();
        assert(count_where(after.durable_waiters, durable_of(waiter)) == 0);
        assert(count_where(after.stop, same_as(waiter)) == 0);
    }
}

proof fn lemma_seal_answers(actor: ActorModel, from: u64, waiter: u64)
    ensures
        actor.seal_requested(from).accounted(waiter) == actor.accounted(waiter) + one_if_same(
            from,
            waiter,
        ),
{
    if actor.stopped {
        let result = Err(Failure::Own(Error::ObjectStoreWalStopped));
        lemma_act_answers(actor, ActionModel::Answer { waiter: from, result }, from, waiter);
    } else {
        let flushed = actor.flush();
        lemma_flush_answers(actor, waiter);
        if actor.seals() {
            crate::actor_model::lemma_flush_seals(actor);
            let i = flushed.sealed.len() - 1;
            let batch = flushed.sealed[i];
            let noted = SealedModel { seal_waiters: batch.seal_waiters.push(from), ..batch };
            lemma_in_sealed_update(flushed.sealed, i, noted, waiter);
            lemma_count_where_push(batch.seal_waiters, from, same_as(waiter));
        } else {
            lemma_act_answers(
                flushed,
                ActionModel::Answer { waiter: from, result: flushed.health() },
                from,
                waiter,
            );
        }
    }
}

/// The waiter that an event brings.
pub open spec fn brings(event: Event) -> Option<u64> {
    match event {
        Event::Append { waiter, .. } => Some(waiter),
        Event::WaitDurable { waiter, .. } => Some(waiter),
        Event::Obsolete { waiter, .. } => Some(waiter),
        Event::Seal { waiter } => Some(waiter),
        Event::Stop { waiter } => Some(waiter),
        _ => None,
    }
}

/// No waiter is forgotten and none is answered twice: with every event, a waiter waits for an
/// answer or was given one exactly as often as before, and once more when the event brings it.
pub proof fn lemma_every_request_is_answered_once(actor: ActorModel, event: Event, waiter: u64)
    ensures
        actor.step(event).accounted(waiter) == actor.accounted(waiter) + (if brings(event) == Some(
            waiter,
        ) {
            1nat
        } else {
            0nat
        }),
{
    match event {
        Event::Append { entries, waiter: from, now } => {
            lemma_append_answers(actor, entries, from, now, waiter);
        },
        Event::CreateCompleted { object_seq, result, now } => {
            lemma_create_completed_answers(actor, object_seq, result, now, waiter);
        },
        Event::DeleteCompleted { object_seq, deleted } => {},
        Event::WaitDurable { region_id, entry_id, waiter: from } => {
            lemma_wait_durable_answers(actor, region_id, entry_id, from, waiter);
        },
        Event::Obsolete { region_id, entry_id, watermark, waiter: from } => {
            lemma_obsolete_answers(actor, region_id, entry_id, watermark, from, waiter);
        },
        Event::RecordObsolete { region_id, entry_id } => {},
        Event::Seal { waiter: from } => {
            lemma_seal_answers(actor, from, waiter);
        },
        Event::Tick => {
            lemma_flush_answers(actor, waiter);
        },
        Event::BeginStop => {},
        Event::Stop { waiter: from } => {
            lemma_begin_exit_answers(actor, from, waiter);
        },
        Event::FinishStop => {
            lemma_finish_exit_answers(actor, waiter);
        },
    }
}

} // verus!
