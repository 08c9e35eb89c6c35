//! What stopping a store in the durable mode leaves behind.
use vstd::prelude::*;

use crate::actor::{opened, ActorSettings};
use crate::actor_laws::{
    keeps, lemma_answer_durable, lemma_create_done_follows, lemma_draining_follows,
    lemma_find_seq_bounds, lemma_find_state_bounds, lemma_front_is_accepted,
    lemma_index_front_follows, lemma_settle_front_follows, lemma_start_creates_follows,
    lemma_step_follows, lemma_with_state_follows, Event,
};
use crate::actor_model::{
    acknowledge, answer_all, answer_durable, exhausted, fail_durable, fail_pending, fail_sealed,
    find_seq, find_state, in_flight, larger, largest_failed, lemma_flush_seals, lemma_start_frame,
    place_of, raise_issued, AckMode, ActionModel, ActorModel, CreateState, PendingModel,
    SealedModel, MAX_IN_FLIGHT_CREATES,
};
use crate::batch::placed_last_ids;
use crate::catalog::CatalogModel;
use crate::error::{Error, Failure};
use crate::id::EntryId;
use crate::logstore::Entry;

verus! {

/// Whether the store was stopped in the durable mode.
pub open spec fn stopping(actor: ActorModel) -> bool {
    actor.ack_mode == AckMode::Durable && actor.stopped
}

/// An action that starts no create, and that fails an append only because the store was stopped.
pub open spec fn winding(action: ActionModel) -> bool {
    match action {
        ActionModel::Create { .. } => false,
        ActionModel::AnswerAppend { result: Err(failure), .. } => failure == Failure::Own(
            Error::ObjectStoreWalStopped,
        ),
        _ => true,
    }
}

/// The actions of `before`, followed by actions that wind the store down.
pub open spec fn wound_actions(before: Seq<ActionModel>, after: Seq<ActionModel>) -> bool {
    &&& before.len() <= after.len()
    &&& forall|i: int| 0 <= i < before.len() ==> #[trigger] after[i] == before[i]
    &&& forall|i: int| before.len() <= i < after.len() ==> winding(#[trigger] after[i])
}

/// The store stays stopped, starts no create, and fails an append only because it was stopped.
pub open spec fn winds_down(before: ActorModel, after: ActorModel) -> bool {
    stopping(after) && wound_actions(before.actions, after.actions)
}

proof fn lemma_wound_trans(a: Seq<ActionModel>, b: Seq<ActionModel>, c: Seq<ActionModel>)
    requires
        wound_actions(a, b),
        wound_actions(b, c),
    ensures
        wound_actions(a, c),
{
    assert forall|i: int| 0 <= i < a.len() implies #[trigger] c[i] == a[i] by {
        assert(c[i] == b[i]);
    }
    assert forall|i: int| a.len() <= i < c.len() implies winding(#[trigger] c[i]) by {
        if i < b.len() {
            assert(c[i] == b[i]);
        }
    }
}

proof fn lemma_fail_sealed_winds(sealed: Seq<SealedModel>)
    ensures
        forall|i: int|
            0 <= i < fail_sealed(
                sealed,
                Failure::Own(Error::ObjectStoreWalStopped),
            ).len() ==> winding(
                #[trigger] fail_sealed(sealed, Failure::Own(Error::ObjectStoreWalStopped))[i],
            ),
    decreases sealed.len(),
{
    if sealed.len() > 0 {
        let failure = Failure::Own(Error::ObjectStoreWalStopped);
        let front = fail_sealed(sealed.drop_last(), failure);
        let all = fail_sealed(sealed, failure);
        lemma_fail_sealed_winds(sealed.drop_last());
        assert forall|i: int| 0 <= i < all.len() implies winding(#[trigger] all[i]) by {
            if i < front.len() {
                assert(all[i] == front[i]);
            }
        }
    }
}

/// Dropping the backlog of a stopped store fails its appends because it was stopped.
proof fn lemma_drop_backlog_winds(actor: ActorModel)
    ensures
        wound_actions(
            actor.actions,
            actor.drop_backlog(Failure::Own(Error::ObjectStoreWalStopped)).actions,
        ),
{
    let failure = Failure::Own(Error::ObjectStoreWalStopped);
    let after = actor.drop_backlog(failure);
    let answers = fail_sealed(actor.sealed, failure);
    lemma_fail_sealed_winds(actor.sealed);
    assert forall|i: int| 0 <= i < actor.actions.len() implies #[trigger] after.actions[i]
        == actor.actions[i] by {}
    assert forall|i: int| actor.actions.len() <= i < after.actions.len() implies winding(
        #[trigger] after.actions[i],
    ) by {
        let k = i - actor.actions.len();
        if k < answers.len() {
            assert(after.actions[i] == answers[k]);
        }
    }
}

proof fn lemma_poison_winds(actor: ActorModel, error: Error)
    requires
        stopping(actor),
    ensures
        winds_down(actor, actor.poison(error)),
{
    reveal(ActorModel::poison);
    lemma_drop_backlog_winds(actor.set_terminal(error));
}

proof fn lemma_index_front_winds(actor: ActorModel)
    requires
        stopping(actor),
        actor.sealed.len() > 0,
    ensures
        winds_down(actor, actor.index_front()),
{
    let front = actor.sealed[0];
    let after = actor.index_front();
    if let Some(reason) = actor.catalog.rejection(front.object_seq, front.footer) {
        lemma_poison_winds(actor, Error::CorruptedWalObject { reason });
    } else {
        let acks = acknowledge(front.waiters);
        let seals = answer_all(front.seal_waiters, Ok(()));
        let durable = answer_durable(actor.durable_waiters, after.catalog.max_ids);
        lemma_answer_durable(actor.durable_waiters, after.catalog.max_ids);
        assert(after.actions == actor.actions + acks + seals + durable);
        assert forall|i: int| actor.actions.len() <= i < after.actions.len() implies winding(
            #[trigger] after.actions[i],
        ) by {
            let k = i - actor.actions.len();
            if k < acks.len() {
                assert(after.actions[i] == acks[k]);
            } else if k >= acks.len() + seals.len() {
                assert(after.actions[i] == durable[k - acks.len() - seals.len()]);
            }
        }
    }
}

proof fn lemma_settle_front_winds(actor: ActorModel)
    requires
        stopping(actor),
    ensures
        winds_down(actor, actor.settle_front()),
    decreases actor.sealed.len(),
{
    reveal(ActorModel::roll_back);
    if actor.sealed.len() > 0 {
        let front = actor.sealed[0];
        match front.state {
            CreateState::Pending => {},
            CreateState::InFlight => {},
            CreateState::Created => {
                lemma_index_front_winds(actor);
                if actor.indexes_front() {
                    let next = actor.index_front();
                    lemma_settle_front_winds(next);
                    lemma_wound_trans(actor.actions, next.actions, next.settle_front().actions);
                }
            },
            CreateState::Failed(error) => {
                if find_state(actor.sealed, CreateState::InFlight, 0) is Some {
                } else if let Some(later) = find_state(actor.sealed, CreateState::Created, 1) {
                    lemma_poison_winds(
                        actor,
                        Error::WalObjectHistoryGap {
                            object_seq: front.object_seq,
                            later_object_seq: actor.sealed[later].object_seq,
                        },
                    );
                } else {
                    let moved = ActorModel {
                        next_object_seq: Some(front.object_seq),
                        unresolved_object_seq: larger(
                            actor.unresolved_object_seq,
                            largest_failed(actor.sealed),
                        ),
                        ..actor
                    };
                    lemma_drop_backlog_winds(moved);
                }
            },
        }
    }
}

/// A stopped store starts no create and admits no stalled append.
proof fn lemma_stopped_settle(actor: ActorModel, now: u64)
    requires
        stopping(actor),
    ensures
        winds_down(actor, actor.settle(now)),
        wound_actions(actor.settle_front().actions, actor.settle(now).actions),
        actor.settle(now) == (ActorModel {
            stalled: Seq::empty(),
            actions: actor.settle(now).actions,
            ..actor.settle_front()
        }),
{
    reveal(ActorModel::start_creates);
    lemma_settle_front_winds(actor);
    let settled = actor.settle_front();
    let after = actor.settle(now);
    assert(wound_actions(settled.actions, after.actions));
    lemma_wound_trans(actor.actions, settled.actions, after.actions);
    if settled.stalled.len() == 0 {
        assert(settled.stalled =~= Seq::empty());
    }
}

proof fn lemma_create_completed_winds(
    actor: ActorModel,
    object_seq: u64,
    result: Result<(), Error>,
    now: u64,
)
    requires
        stopping(actor),
    ensures
        winds_down(actor, actor.create_completed(object_seq, result, now)),
{
    let done = actor.create_done(object_seq);
    if let Some(i) = find_seq(actor.sealed, object_seq, 0) {
        match result {
            Ok(()) => {
                lemma_stopped_settle(done.with_state(i, CreateState::Created), now);
            },
            Err(error) => {
                if error is WalObjectStore {
                    let noted = ActorModel {
                        draining: true,
                        ..done.with_state(i, CreateState::Failed(error))
                    };
                    lemma_stopped_settle(noted, now);
                } else {
                    lemma_poison_winds(done, error);
                }
            },
        }
    }
}

proof fn lemma_begin_exit_winds(actor: ActorModel, waiter: u64)
    requires
        stopping(actor),
    ensures
        winds_down(actor, actor.begin_exit(waiter)),
{
    let failure = Failure::Own(Error::ObjectStoreWalStopped);
    let after = actor.begin_exit(waiter);
    let first = actor.actions + fail_pending(actor.pending, failure);
    if let Some(at) = find_state(actor.sealed, CreateState::Pending, 0) {
        let rest = fail_sealed(actor.sealed.skip(at), failure);
        lemma_fail_sealed_winds(actor.sealed.skip(at));
        assert forall|i: int| actor.actions.len() <= i < after.actions.len() implies winding(
            #[trigger] after.actions[i],
        ) by {
            if i >= first.len() {
                assert(after.actions[i] == rest[i - first.len()]);
            }
        }
    }
}

/// Once stopped, a store in the durable mode stays stopped whatever happens: no create starts, and
/// an append that fails is told that the store was stopped.
pub proof fn lemma_stopped_step(actor: ActorModel, event: Event)
    requires
        stopping(actor),
    ensures
        winds_down(actor, actor.step(event)),
{
    match event {
        Event::CreateCompleted { object_seq, result, now } => {
            lemma_create_completed_winds(actor, object_seq, result, now);
        },
        Event::Stop { waiter } => {
            lemma_begin_exit_winds(actor, waiter);
        },
        Event::Obsolete { region_id, entry_id, watermark, waiter } => {
            reveal(ActorModel::raise_sequence_floor);
            reveal(ActorModel::collect_garbage);
        },
        _ => {},
    }
}

/// Once stopped, a store in the durable mode winds down over any run.
pub proof fn lemma_stopped_run(actor: ActorModel, events: Seq<Event>)
    requires
        stopping(actor),
    ensures
        winds_down(actor, actor.run(events)),
    decreases events.len(),
{
    if events.len() > 0 {
        let earlier = actor.run(events.drop_last());
        lemma_stopped_run(actor, events.drop_last());
        lemma_stopped_step(earlier, events.last());
        lemma_wound_trans(actor.actions, earlier.actions, actor.run(events).actions);
    }
}

/// A stopped store refuses every append, also one without entries, and changes nothing for it.
pub proof fn lemma_stopped_append_is_refused(
    actor: ActorModel,
    entries: Seq<Entry>,
    waiter: u64,
    now: u64,
)
    requires
        actor.stopped,
    ensures
        actor.step(Event::Append { entries, waiter, now }) == actor.act(
            ActionModel::AnswerAppend {
                waiter,
                result: Err(Failure::Own(Error::ObjectStoreWalStopped)),
            },
        ),
{
}

/// Every batch that was started waits for a create that runs: the batches that were not started
/// are the last ones, each create in flight is listed, and one is in flight if any was started.
pub open spec fn progresses(actor: ActorModel) -> bool {
    actor.ack_mode == AckMode::Durable ==> {
        &&& started_in_order(actor.sealed)
        &&& lists_creates(actor)
        &&& has_create(actor.sealed)
    }
}

/// Behind a batch that was not started none was.
pub open spec fn started_in_order(sealed: Seq<SealedModel>) -> bool {
    forall|i: int, j: int|
        0 <= i < j < sealed.len() && (#[trigger] sealed[i]).state == CreateState::Pending ==> (
        #[trigger] sealed[j]).state == CreateState::Pending
}

/// Every create in flight is among the creates that run.
pub open spec fn lists_creates(actor: ActorModel) -> bool {
    forall|i: int|
        0 <= i < actor.sealed.len() && (#[trigger] actor.sealed[i]).state == CreateState::InFlight
            ==> actor.creates.contains(actor.sealed[i].object_seq)
}

/// A create is in flight if the first batch was started.
pub open spec fn has_create(sealed: Seq<SealedModel>) -> bool {
    sealed.len() > 0 && sealed[0].state != CreateState::Pending ==> exists|i: int|
        0 <= i < sealed.len() && (#[trigger] sealed[i]).state == CreateState::InFlight
}

/// A create that completes was in flight.
pub open spec fn reported(actor: ActorModel, event: Event) -> bool {
    match event {
        Event::CreateCompleted { object_seq, .. } => find_seq(
            actor.sealed,
            object_seq,
            0,
        ) matches Some(i) ==> actor.sealed[i].state == CreateState::InFlight,
        _ => true,
    }
}

/// Every create that completes was in flight.
pub open spec fn all_reported(actor: ActorModel, events: Seq<Event>) -> bool
    decreases events.len(),
{
    events.len() > 0 ==> all_reported(actor, events.drop_last()) && reported(
        actor.run(events.drop_last()),
        events.last(),
    )
}

/// A store that was just opened has nothing to wait for.
pub proof fn lemma_opened_progresses(
    settings: ActorSettings,
    catalog: CatalogModel,
    next_object_seq: u64,
    durable_ids: Map<u64, EntryId>,
)
    ensures
        progresses(opened(settings, catalog, next_object_seq, durable_ids)),
{
}

/// A state with the same batches and creates progresses alike.
proof fn lemma_same_progress(before: ActorModel, after: ActorModel)
    requires
        progresses(before),
        after.ack_mode == before.ack_mode,
        after.sealed.len() == before.sealed.len(),
        forall|i: int|
            0 <= i < after.sealed.len() ==> (#[trigger] after.sealed[i]).state
                == before.sealed[i].state && after.sealed[i].object_seq
                == before.sealed[i].object_seq,
        after.creates == before.creates,
    ensures
        progresses(after),
{
    if after.ack_mode == AckMode::Durable {
        assert forall|i: int, j: int|
            0 <= i < j < after.sealed.len() && (#[trigger] after.sealed[i]).state
                == CreateState::Pending implies (#[trigger] after.sealed[j]).state
            == CreateState::Pending by {
            assert(before.sealed[i].state == CreateState::Pending);
            assert(before.sealed[j].state == CreateState::Pending);
        }
        assert forall|i: int|
            0 <= i < after.sealed.len() && (#[trigger] after.sealed[i]).state
                == CreateState::InFlight implies after.creates.contains(
            after.sealed[i].object_seq,
        ) by {
            assert(before.sealed[i].state == CreateState::InFlight);
        }
        if after.sealed.len() > 0 && after.sealed[0].state != CreateState::Pending {
            let i = choose|i: int|
                0 <= i < before.sealed.len() && (#[trigger] before.sealed[i]).state
                    == CreateState::InFlight;
            assert(after.sealed[i].state == CreateState::InFlight);
        }
    }
}

proof fn lemma_start_from_progresses(actor: ActorModel, i: int, running: nat)
    requires
        actor.ack_mode == AckMode::Durable,
        progresses(actor),
        0 <= i,
        forall|k: int|
            0 <= k < i && k < actor.sealed.len() ==> (#[trigger] actor.sealed[k]).state
                != CreateState::Pending,
    ensures
        progresses(actor.start_from(i, running)),
    decreases actor.sealed.len() - i,
{
    if i >= actor.sealed.len() || running >= MAX_IN_FLIGHT_CREATES {
    } else if actor.sealed[i].state != CreateState::Pending {
        lemma_start_from_progresses(actor, i + 1, running);
    } else {
        let batch = actor.sealed[i];
        let started = SealedModel {
            state: CreateState::InFlight,
            attempts: if batch.attempts == u32::MAX {
                u32::MAX
            } else {
                (batch.attempts + 1) as u32
            },
            ..batch
        };
        let next = ActorModel {
            sealed: actor.sealed.update(i, started),
            creates: actor.creates.push(batch.object_seq),
            ..actor
        }.act(ActionModel::Create { object_seq: batch.object_seq, delayed: batch.attempts != 0 });
        assert forall|a: int, b: int|
            0 <= a < b < next.sealed.len() && (#[trigger] next.sealed[a]).state
                == CreateState::Pending implies (#[trigger] next.sealed[b]).state
            == CreateState::Pending by {
            assert(next.sealed[a] == actor.sealed[a]);
            assert(i < a);
            assert(next.sealed[b] == actor.sealed[b]);
        }
        assert forall|k: int|
            0 <= k < next.sealed.len() && (#[trigger] next.sealed[k]).state
                == CreateState::InFlight implies next.creates.contains(
            next.sealed[k].object_seq,
        ) by {
            if k == i {
                assert(next.creates[actor.creates.len() as int] == batch.object_seq);
            } else {
                assert(next.sealed[k] == actor.sealed[k]);
                let at = actor.creates.index_of(actor.sealed[k].object_seq);
                assert(next.creates[at] == actor.sealed[k].object_seq);
            }
        }
        assert(next.sealed[i].state == CreateState::InFlight);
        lemma_start_from_progresses(next, i + 1, running + 1);
    }
}

proof fn lemma_start_creates_progresses(actor: ActorModel)
    requires
        actor.ack_mode == AckMode::Durable,
        progresses(actor),
    ensures
        progresses(actor.start_creates()),
{
    reveal(ActorModel::start_creates);
    lemma_start_from_progresses(actor, 0, in_flight(actor.sealed));
}

proof fn lemma_poison_progresses(actor: ActorModel, error: Error)
    ensures
        progresses(actor.poison(error)),
{
    reveal(ActorModel::poison);
}

proof fn lemma_flush_progresses(actor: ActorModel)
    requires
        actor.ack_mode == AckMode::Durable,
        progresses(actor),
    ensures
        progresses(actor.flush()),
        actor.flush().ack_mode == AckMode::Durable,
{
    reveal(ActorModel::flush);
    reveal(ActorModel::poison);
    reveal(ActorModel::start_creates);
    if actor.seals() {
        let noted = actor.sealed_noted();
        assert forall|i: int| 0 <= i < actor.sealed.len() implies #[trigger] noted.sealed[i]
            == actor.sealed[i] by {}
        assert(noted.sealed[actor.sealed.len() as int].state == CreateState::Pending);
        assert(started_in_order(noted.sealed)) by {
            assert forall|i: int, j: int|
                0 <= i < j < noted.sealed.len() && (#[trigger] noted.sealed[i]).state
                    == CreateState::Pending implies (#[trigger] noted.sealed[j]).state
                == CreateState::Pending by {
                if j < actor.sealed.len() {
                    assert(actor.sealed[i].state == CreateState::Pending);
                    assert(actor.sealed[j].state == CreateState::Pending);
                }
            }
        }
        assert(lists_creates(noted)) by {
            assert forall|i: int|
                0 <= i < noted.sealed.len() && (#[trigger] noted.sealed[i]).state
                    == CreateState::InFlight implies noted.creates.contains(
                noted.sealed[i].object_seq,
            ) by {
                assert(actor.sealed[i].state == CreateState::InFlight);
            }
        }
        assert(has_create(noted.sealed)) by {
            if noted.sealed[0].state != CreateState::Pending {
                assert(actor.sealed[0].state != CreateState::Pending);
                let i = choose|i: int|
                    0 <= i < actor.sealed.len() && (#[trigger] actor.sealed[i]).state
                        == CreateState::InFlight;
                assert(noted.sealed[i].state == CreateState::InFlight);
            }
        }
        lemma_start_creates_progresses(noted);
        lemma_start_frame(noted, 0, in_flight(noted.sealed));
    }
}

proof fn lemma_take_in_progresses(
    actor: ActorModel,
    entries: Seq<Entry>,
    waiter: u64,
    now: u64,
)
    requires
        actor.ack_mode == AckMode::Durable,
        progresses(actor),
    ensures
        progresses(actor.take_in(entries, waiter, now)),
{
    reveal(ActorModel::take_in);
    reveal(ActorModel::enter);
    let after = actor.take_in(entries, waiter, now);
    let seals_first = actor.batch.entries.len() > 0 && actor.batch.exhausted(entries) is Some;
    let open = if seals_first {
        actor.flush()
    } else {
        actor
    };
    lemma_flush_progresses(actor);
    if seals_first && open.terminal is Some {
        lemma_same_progress(open, after);
    } else if open.next_object_seq is None {
        let poisoned = open.poison(exhausted());
        lemma_poison_progresses(open, exhausted());
        lemma_same_progress(poisoned, after);
    } else if open.batch.exhausted(entries) is Some {
        lemma_same_progress(open, after);
    } else {
        let object_seq = open.next_object_seq->0;
        let last_ids = placed_last_ids(object_seq, open.batch.entries, entries);
        let noted = ActorModel {
            batch: open.batch.with(object_seq, entries, now),
            issued: raise_issued(open.issued, last_ids),
            pending: open.pending.push(PendingModel { waiter, last_ids }),
            ..open
        };
        lemma_same_progress(open, noted);
        lemma_flush_progresses(noted);
    }
}

/// Settling the front leaves no started batch without a create in flight.
proof fn lemma_settle_front_progresses(actor: ActorModel)
    requires
        actor.valid(),
        actor.ack_mode == AckMode::Durable,
        started_in_order(actor.sealed),
        lists_creates(actor),
    ensures
        progresses(actor.settle_front()),
        actor.settle_front().ack_mode == AckMode::Durable,
    decreases actor.sealed.len(),
{
    reveal(ActorModel::roll_back);
    reveal(ActorModel::poison);
    if actor.sealed.len() > 0 {
        let front = actor.sealed[0];
        match front.state {
            CreateState::Pending => {},
            CreateState::InFlight => {},
            CreateState::Created => {
                lemma_front_is_accepted(actor);
                lemma_index_front_follows(actor);
                let next = actor.index_front();
                assert forall|i: int| 0 <= i < next.sealed.len() implies #[trigger] next.sealed[i]
                    == actor.sealed[i + 1] by {}
                assert forall|i: int, j: int|
                    0 <= i < j < next.sealed.len() && (#[trigger] next.sealed[i]).state
                        == CreateState::Pending implies (#[trigger] next.sealed[j]).state
                    == CreateState::Pending by {
                    assert(actor.sealed[i + 1].state == CreateState::Pending);
                    assert(actor.sealed[j + 1].state == CreateState::Pending);
                }
                assert(lists_creates(next)) by {
                    assert forall|i: int|
                        0 <= i < next.sealed.len() && (#[trigger] next.sealed[i]).state
                            == CreateState::InFlight implies next.creates.contains(
                        next.sealed[i].object_seq,
                    ) by {
                        assert(actor.sealed[i + 1].state == CreateState::InFlight);
                    }
                }
                lemma_settle_front_progresses(next);
            },
            CreateState::Failed(error) => {
                lemma_find_state_bounds(actor.sealed, CreateState::InFlight, 0);
            },
        }
    }
}

proof fn lemma_settle_progresses(actor: ActorModel, now: u64)
    requires
        actor.valid(),
        actor.ack_mode == AckMode::Durable,
        started_in_order(actor.sealed),
        lists_creates(actor),
    ensures
        progresses(actor.settle(now)),
{
    let settled = actor.settle_front();
    let started = settled.start_creates();
    lemma_settle_front_progresses(actor);
    lemma_settle_front_follows(actor);
    lemma_start_creates_progresses(settled);
    lemma_start_creates_follows(settled);
    assert(started.stalled.len() == 0) by {
        reveal(ActorModel::valid);
        reveal(keeps);
    }
}

/// A sequence that is not found is the sequence of no batch.
proof fn lemma_not_found(sealed: Seq<SealedModel>, object_seq: u64, i: int)
    requires
        0 <= i,
        find_seq(sealed, object_seq, i) is None,
    ensures
        forall|k: int|
            i <= k < sealed.len() ==> (#[trigger] sealed[k]).object_seq != object_seq,
    decreases sealed.len() - i,
{
    if i < sealed.len() {
        lemma_not_found(sealed, object_seq, i + 1);
    }
}

/// The other creates stay listed when one is done.
proof fn lemma_done_keeps_others(actor: ActorModel, object_seq: u64, other: u64)
    requires
        other != object_seq,
        actor.creates.contains(other),
    ensures
        actor.create_done(object_seq).creates.contains(other),
{
    let done = actor.create_done(object_seq);
    let at = actor.creates.index_of(other);
    lemma_place_bounds(actor.creates, object_seq, 0);
    if let Some(i) = place_of(actor.creates, object_seq, 0) {
        if at < i {
            assert(done.creates[at] == other);
        } else {
            assert(done.creates[at - 1] == other);
        }
    }
}

proof fn lemma_place_bounds(seqs: Seq<u64>, object_seq: u64, i: int)
    requires
        0 <= i,
    ensures
        place_of(seqs, object_seq, i) matches Some(at) ==> i <= at < seqs.len() && seqs[at]
            == object_seq,
    decreases seqs.len() - i,
{
    if i < seqs.len() && seqs[i] != object_seq {
        lemma_place_bounds(seqs, object_seq, i + 1);
    }
}

proof fn lemma_create_completed_progresses(
    actor: ActorModel,
    object_seq: u64,
    result: Result<(), Error>,
    now: u64,
)
    requires
        actor.valid(),
        actor.ack_mode == AckMode::Durable,
        progresses(actor),
        reported(actor, Event::CreateCompleted { object_seq, result, now }),
    ensures
        progresses(actor.create_completed(object_seq, result, now)),
{
    let done = actor.create_done(object_seq);
    lemma_create_done_follows(actor, object_seq);
    lemma_find_seq_bounds(actor.sealed, object_seq, 0);
    if let Some(i) = find_seq(actor.sealed, object_seq, 0) {
        match result {
            Ok(()) => {
                lemma_state_noted(actor, object_seq, i, CreateState::Created);
                lemma_with_state_follows(done, i, CreateState::Created);
                lemma_settle_progresses(done.with_state(i, CreateState::Created), now);
            },
            Err(error) => {
                if error is WalObjectStore {
                    let failed = done.with_state(i, CreateState::Failed(error));
                    lemma_state_noted(actor, object_seq, i, CreateState::Failed(error));
                    lemma_with_state_follows(done, i, CreateState::Failed(error));
                    lemma_draining_follows(failed);
                    lemma_settle_progresses(ActorModel { draining: true, ..failed }, now);
                } else {
                    lemma_poison_progresses(done, error);
                }
            },
        }
    } else {
        lemma_not_found(actor.sealed, object_seq, 0);
        assert forall|k: int|
            0 <= k < done.sealed.len() && (#[trigger] done.sealed[k]).state
                == CreateState::InFlight implies done.creates.contains(
            done.sealed[k].object_seq,
        ) by {
            assert(actor.sealed[k].object_seq != object_seq);
            lemma_done_keeps_others(actor, object_seq, actor.sealed[k].object_seq);
        }
    }
}

/// The batch whose create completed is no longer in flight; the others are as before.
proof fn lemma_state_noted(actor: ActorModel, object_seq: u64, i: int, state: CreateState)
    requires
        actor.valid(),
        actor.ack_mode == AckMode::Durable,
        progresses(actor),
        0 <= i < actor.sealed.len(),
        actor.sealed[i].object_seq == object_seq,
        actor.sealed[i].state == CreateState::InFlight,
        state != CreateState::InFlight,
        state != CreateState::Pending,
    ensures
        ({
            let noted = actor.create_done(object_seq).with_state(i, state);
            started_in_order(noted.sealed) && lists_creates(noted)
        }),
{
    reveal(ActorModel::valid);
    let noted = actor.create_done(object_seq).with_state(i, state);
    assert forall|a: int, b: int|
        0 <= a < b < noted.sealed.len() && (#[trigger] noted.sealed[a]).state
            == CreateState::Pending implies (#[trigger] noted.sealed[b]).state
        == CreateState::Pending by {
        assert(actor.sealed[a].state == CreateState::Pending);
        assert(actor.sealed[b].state == CreateState::Pending);
    }
    assert forall|k: int|
        0 <= k < noted.sealed.len() && (#[trigger] noted.sealed[k]).state
            == CreateState::InFlight implies noted.creates.contains(
        noted.sealed[k].object_seq,
    ) by {
        assert(noted.sealed[k] == actor.sealed[k]);
        if k < i {
            assert(actor.sealed[k].object_seq < actor.sealed[i].object_seq);
        } else {
            assert(actor.sealed[i].object_seq < actor.sealed[k].object_seq);
        }
        lemma_done_keeps_others(actor, object_seq, actor.sealed[k].object_seq);
    }
}

/// The batches before the first that is in the state are in other states.
proof fn lemma_first_in_state(sealed: Seq<SealedModel>, state: CreateState, i: int)
    requires
        0 <= i,
    ensures
        match find_state(sealed, state, i) {
            Some(at) => forall|k: int|
                i <= k < at ==> (#[trigger] sealed[k]).state != state,
            None => forall|k: int|
                i <= k < sealed.len() ==> (#[trigger] sealed[k]).state != state,
        },
    decreases sealed.len() - i,
{
    if i < sealed.len() && sealed[i].state != state {
        lemma_first_in_state(sealed, state, i + 1);
    }
}

proof fn lemma_begin_exit_progresses(actor: ActorModel, waiter: u64)
    requires
        actor.ack_mode == AckMode::Durable,
        progresses(actor),
    ensures
        progresses(actor.begin_exit(waiter)),
{
    let after = actor.begin_exit(waiter);
    lemma_find_state_bounds(actor.sealed, CreateState::Pending, 0);
    if let Some(at) = find_state(actor.sealed, CreateState::Pending, 0) {
        assert forall|i: int| 0 <= i < after.sealed.len() implies #[trigger] after.sealed[i]
            == actor.sealed[i] by {}
        assert(started_in_order(after.sealed)) by {
            assert forall|i: int, j: int|
                0 <= i < j < after.sealed.len() && (#[trigger] after.sealed[i]).state
                    == CreateState::Pending implies (#[trigger] after.sealed[j]).state
                == CreateState::Pending by {
                assert(actor.sealed[i].state == CreateState::Pending);
                assert(actor.sealed[j].state == CreateState::Pending);
            }
        }
        assert(lists_creates(after)) by {
            assert forall|i: int|
                0 <= i < after.sealed.len() && (#[trigger] after.sealed[i]).state
                    == CreateState::InFlight implies after.creates.contains(
                after.sealed[i].object_seq,
            ) by {
                assert(actor.sealed[i].state == CreateState::InFlight);
            }
        }
        assert(has_create(after.sealed)) by {
            if after.sealed.len() > 0 && after.sealed[0].state != CreateState::Pending {
                let i = choose|i: int|
                    0 <= i < actor.sealed.len() && (#[trigger] actor.sealed[i]).state
                        == CreateState::InFlight;
                if at < i {
                    assert(actor.sealed[at].state == CreateState::Pending);
                    assert(actor.sealed[i].state == CreateState::Pending);
                }
                assert(after.sealed[i].state == CreateState::InFlight);
            }
        }
    } else {
        lemma_same_progress(actor, after);
    }
}

/// In the durable mode every batch that was started keeps waiting for a create that runs.
pub proof fn lemma_step_progresses(actor: ActorModel, event: Event)
    requires
        actor.valid(),
        actor.ack_mode == AckMode::Durable,
        progresses(actor),
        reported(actor, event),
    ensures
        progresses(actor.step(event)),
{
    let after = actor.step(event);
    match event {
        Event::Append { entries, waiter, now } => {
            if actor.stopped || actor.terminal is Some {
                lemma_same_progress(actor, after);
            } else {
                lemma_take_in_progresses(actor, entries, waiter, now);
            }
        },
        Event::CreateCompleted { object_seq, result, now } => {
            lemma_create_completed_progresses(actor, object_seq, result, now);
        },
        Event::Obsolete { region_id, entry_id, watermark, waiter } => {
            reveal(ActorModel::raise_sequence_floor);
            reveal(ActorModel::collect_garbage);
            reveal(ActorModel::poison);
            let raised = actor.raise_sequence_floor(region_id.0, entry_id);
            assert(progresses(raised)) by {
                if raised.sealed != actor.sealed {
                    assert(raised.sealed.len() == 0);
                } else {
                    lemma_same_progress(actor, raised);
                }
            }
            lemma_same_progress(raised, after);
        },
        Event::Seal { waiter } => {
            lemma_flush_progresses(actor);
            if actor.stopped {
                lemma_same_progress(actor, after);
            } else {
                if actor.seals() {
                    lemma_flush_seals(actor);
                }
                lemma_same_progress(actor.flush(), after);
            }
        },
        Event::Tick => {
            lemma_flush_progresses(actor);
        },
        Event::Stop { waiter } => {
            lemma_begin_exit_progresses(actor, waiter);
        },
        _ => {
            lemma_same_progress(actor, after);
        },
    }
}

/// In the durable mode every batch that was started keeps waiting for a create that runs, over any
/// run.
pub proof fn lemma_run_progresses(actor: ActorModel, events: Seq<Event>)
    requires
        actor.valid(),
        actor.ack_mode == AckMode::Durable,
        progresses(actor),
        all_reported(actor, events),
    ensures
        progresses(actor.run(events)),
        actor.run(events).valid(),
        actor.run(events).ack_mode == AckMode::Durable,
    decreases events.len(),
{
    if events.len() > 0 {
        let earlier = actor.run(events.drop_last());
        lemma_run_progresses(actor, events.drop_last());
        lemma_step_progresses(earlier, events.last());
        lemma_step_follows(earlier, events.last());
        reveal(keeps);
    }
}

/// A store that is being stopped in the durable mode holds nothing but batches whose creates were
/// started.
pub open spec fn exiting(actor: ActorModel) -> bool {
    &&& stopping(actor)
    &&& actor.batch.entries.len() == 0
    &&& actor.pending.len() == 0
    &&& actor.stalled.len() == 0
    &&& forall|i: int|
        0 <= i < actor.sealed.len() ==> (#[trigger] actor.sealed[i]).state != CreateState::Pending
}

/// Stopping leaves nothing but the batches whose creates were started; they are kept as they are.
pub proof fn lemma_stop_begins(actor: ActorModel, waiter: u64)
    requires
        actor.valid(),
        stopping(actor),
    ensures
        exiting(actor.begin_exit(waiter)),
        actor.begin_exit(waiter).stop == actor.stop.push(waiter),
        actor.begin_exit(waiter).sealed == actor.sealed.take(
            actor.begin_exit(waiter).sealed.len() as int,
        ),
{
    reveal(ActorModel::valid);
    lemma_find_state_bounds(actor.sealed, CreateState::Pending, 0);
    lemma_first_in_state(actor.sealed, CreateState::Pending, 0);
    let after = actor.begin_exit(waiter);
    assert forall|i: int| 0 <= i < after.sealed.len() implies (#[trigger] after.sealed[i]).state
        != CreateState::Pending by {
        assert(after.sealed[i] == actor.sealed[i]);
    }
    assert(after.sealed =~= actor.sealed.take(after.sealed.len() as int));
}

/// Settling the front of a store that is being stopped leaves only some of its batches.
proof fn lemma_settle_front_exits(actor: ActorModel)
    requires
        exiting(actor),
    ensures
        exiting(actor.settle_front()),
    decreases actor.sealed.len(),
{
    reveal(ActorModel::roll_back);
    reveal(ActorModel::poison);
    if actor.sealed.len() > 0 && actor.sealed[0].state == CreateState::Created {
        let next = actor.index_front();
        if actor.indexes_front() {
            assert forall|i: int| 0 <= i < next.sealed.len() implies (
            #[trigger] next.sealed[i]).state != CreateState::Pending by {
                assert(next.sealed[i] == actor.sealed[i + 1]);
            }
            lemma_settle_front_exits(next);
        }
    }
}

/// A store that is being stopped in the durable mode takes in nothing more.
pub proof fn lemma_exiting_step(actor: ActorModel, event: Event)
    requires
        actor.valid(),
        exiting(actor),
    ensures
        exiting(actor.step(event)),
{
    let after = actor.step(event);
    match event {
        Event::CreateCompleted { object_seq, result, now } => {
            let done = actor.create_done(object_seq);
            lemma_find_seq_bounds(actor.sealed, object_seq, 0);
            if let Some(i) = find_seq(actor.sealed, object_seq, 0) {
                let noted = match result {
                    Ok(()) => done.with_state(i, CreateState::Created),
                    Err(error) => ActorModel {
                        draining: true,
                        ..done.with_state(i, CreateState::Failed(error))
                    },
                };
                assert(exiting(noted));
                lemma_settle_front_exits(noted);
                lemma_stopped_settle(noted, now);
                reveal(ActorModel::poison);
            }
        },
        Event::Stop { waiter } => {
            lemma_stop_begins(actor, waiter);
        },
        Event::Obsolete { region_id, entry_id, watermark, waiter } => {
            reveal(ActorModel::raise_sequence_floor);
            reveal(ActorModel::collect_garbage);
        },
        _ => {},
    }
}

/// In the durable mode stop succeeds, whatever happened before, also when the store failed: once
/// the creates and deletes that run have completed, every caller of stop is answered without an
/// error, and no append is left unanswered.
pub proof fn lemma_stop_succeeds(actor: ActorModel, k: int)
    requires
        actor.valid(),
        progresses(actor),
        exiting(actor),
        actor.creates.len() == 0,
        actor.deleting == Set::<u64>::empty(),
        0 <= k < actor.stop.len(),
    ensures
        actor.may_exit(),
        actor.sealed.len() == 0,
        actor.pending.len() == 0,
        actor.stalled.len() == 0,
        exists|i: int|
            actor.actions.len() <= i < actor.finish_exit().actions.len() && (
            #[trigger] actor.finish_exit().actions[i]) == (ActionModel::Answer {
                waiter: actor.stop[k],
                result: Ok(()),
            }),
        forall|i: int|
            actor.actions.len() + actor.durable_waiters.len() <= i
                < actor.finish_exit().actions.len() ==> (
            #[trigger] actor.finish_exit().actions[i] matches ActionModel::Answer {
                result,
                ..
            } && result is Ok),
{
    reveal(ActorModel::valid);
    if actor.sealed.len() > 0 {
        assert(actor.sealed[0].state != CreateState::Pending);
        let i = choose|i: int|
            0 <= i < actor.sealed.len() && (#[trigger] actor.sealed[i]).state
                == CreateState::InFlight;
        assert(actor.creates.contains(actor.sealed[i].object_seq));
    }
    let failed = fail_durable(
        actor.durable_waiters,
        Failure::Own(Error::ObjectStoreWalStopped),
    );
    let answers = answer_all(actor.stop, Ok(()));
    let after = actor.finish_exit();
    assert(after.actions == actor.actions + failed + answers);
    let at = actor.actions.len() + failed.len() + k;
    assert(after.actions[at] == answers[k]);
    assert forall|i: int|
        actor.actions.len() + actor.durable_waiters.len() <= i < after.actions.len() implies (
    #[trigger] after.actions[i] matches ActionModel::Answer { result, .. } && result is Ok) by {
        assert(after.actions[i] == answers[i - actor.actions.len() - failed.len()]);
    }
}

/// A store that is being stopped in the durable mode takes in nothing more over any run.
pub proof fn lemma_exiting_run(actor: ActorModel, events: Seq<Event>)
    requires
        actor.valid(),
        exiting(actor),
    ensures
        exiting(actor.run(events)),
        actor.run(events).valid(),
    decreases events.len(),
{
    if events.len() > 0 {
        let earlier = actor.run(events.drop_last());
        lemma_exiting_run(actor, events.drop_last());
        lemma_exiting_step(earlier, events.last());
        lemma_step_follows(earlier, events.last());
    }
}

/// The append waits for the batch at place `p`, and neither its create nor an earlier one failed
/// or is still to be started.
pub open spec fn awaits_at(
    actor: ActorModel,
    object_seq: u64,
    append: PendingModel,
    p: int,
) -> bool {
    &&& 0 <= p < actor.sealed.len()
    &&& actor.sealed[p].object_seq == object_seq
    &&& actor.sealed[p].waiters.contains(append)
    &&& forall|j: int|
        0 <= j <= p ==> (#[trigger] actor.sealed[j]).state == CreateState::InFlight
            || actor.sealed[j].state == CreateState::Created
}

/// The append waits for the object, and neither its create nor an earlier one failed or is still
/// to be started.
pub open spec fn awaits(actor: ActorModel, object_seq: u64, append: PendingModel) -> bool {
    exists|p: int| #[trigger] awaits_at(actor, object_seq, append, p)
}

/// The append was acknowledged.
pub open spec fn acknowledged(actor: ActorModel, append: PendingModel) -> bool {
    actor.actions.contains(
        ActionModel::AnswerAppend { waiter: append.waiter, result: Ok(append.last_ids) },
    )
}

/// The create of the object and the earlier ones succeed, and a later one fails at most
/// transiently.
pub open spec fn succeeds_upto(event: Event, object_seq: u64) -> bool {
    match event {
        Event::CreateCompleted { object_seq: seq, result: Err(error), .. } => object_seq < seq
            && error is WalObjectStore,
        _ => true,
    }
}

proof fn lemma_stays_acknowledged(before: ActorModel, after: ActorModel, append: PendingModel)
    requires
        acknowledged(before, append),
        wound_actions(before.actions, after.actions),
    ensures
        acknowledged(after, append),
{
    let answer = ActionModel::AnswerAppend {
        waiter: append.waiter,
        result: Ok(append.last_ids),
    };
    let i = before.actions.index_of(answer);
    assert(after.actions[i] == answer);
}

proof fn lemma_settle_front_awaits(
    actor: ActorModel,
    object_seq: u64,
    append: PendingModel,
    p: int,
)
    requires
        actor.valid(),
        stopping(actor),
        awaits_at(actor, object_seq, append, p),
    ensures
        awaits(actor.settle_front(), object_seq, append) || acknowledged(
            actor.settle_front(),
            append,
        ),
    decreases actor.sealed.len(),
{
    let front = actor.sealed[0];
    if front.state == CreateState::InFlight {
        assert(actor.settle_front() == actor);
    } else {
        assert(front.state == CreateState::Created);
        lemma_front_is_accepted(actor);
        lemma_index_front_follows(actor);
        lemma_index_front_winds(actor);
        let next = actor.index_front();
        if p == 0 {
            let k = front.waiters.index_of(append);
            let acks = acknowledge(front.waiters);
            assert(next.actions[actor.actions.len() + k] == acks[k]);
            lemma_settle_front_winds(next);
            lemma_stays_acknowledged(next, next.settle_front(), append);
        } else {
            assert forall|j: int| 0 <= j <= p - 1 implies (#[trigger] next.sealed[j]).state
                == CreateState::InFlight || next.sealed[j].state == CreateState::Created by {
                assert(next.sealed[j] == actor.sealed[j + 1]);
            }
            assert(awaits_at(next, object_seq, append, p - 1));
            lemma_settle_front_awaits(next, object_seq, append, p - 1);
        }
    }
}

proof fn lemma_in_flight_step(
    actor: ActorModel,
    event: Event,
    object_seq: u64,
    append: PendingModel,
)
    requires
        actor.valid(),
        stopping(actor),
        awaits(actor, object_seq, append) || acknowledged(actor, append),
        succeeds_upto(event, object_seq),
    ensures
        awaits(actor.step(event), object_seq, append) || acknowledged(actor.step(event), append),
{
    let after = actor.step(event);
    lemma_stopped_step(actor, event);
    if acknowledged(actor, append) {
        lemma_stays_acknowledged(actor, after, append);
    } else {
        let p = choose|p: int| #[trigger] awaits_at(actor, object_seq, append, p);
        match event {
            Event::CreateCompleted { object_seq: seq, result, now } => {
                let done = actor.create_done(seq);
                lemma_create_done_follows(actor, seq);
                lemma_find_seq_bounds(actor.sealed, seq, 0);
                if let Some(i) = find_seq(actor.sealed, seq, 0) {
                    assert(i <= p ==> seq <= object_seq) by {
                        reveal(ActorModel::valid);
                        if i < p {
                            assert(actor.sealed[i].object_seq < actor.sealed[p].object_seq);
                        }
                    }
                    let state = match result {
                        Ok(()) => CreateState::Created,
                        Err(error) => CreateState::Failed(error),
                    };
                    let stated = done.with_state(i, state);
                    let noted = if result is Ok {
                        stated
                    } else {
                        ActorModel { draining: true, ..stated }
                    };
                    lemma_with_state_follows(done, i, state);
                    lemma_draining_follows(stated);
                    assert(awaits_at(noted, object_seq, append, p));
                    lemma_settle_front_awaits(noted, object_seq, append, p);
                    lemma_stopped_settle(noted, now);
                    let settled = noted.settle_front();
                    if acknowledged(settled, append) {
                        lemma_stays_acknowledged(settled, after, append);
                    } else {
                        let q = choose|q: int| #[trigger]
                            awaits_at(settled, object_seq, append, q);
                        assert(awaits_at(after, object_seq, append, q));
                    }
                } else {
                    assert(awaits_at(after, object_seq, append, p));
                }
            },
            Event::Stop { waiter } => {
                lemma_find_state_bounds(actor.sealed, CreateState::Pending, 0);
                if let Some(at) = find_state(actor.sealed, CreateState::Pending, 0) {
                    assert(p < at);
                    assert forall|j: int| 0 <= j <= p implies (#[trigger] after.sealed[j]).state
                        == CreateState::InFlight || after.sealed[j].state
                        == CreateState::Created by {
                        assert(after.sealed[j] == actor.sealed[j]);
                    }
                }
                assert(awaits_at(after, object_seq, append, p));
            },
            Event::Obsolete { region_id, entry_id, watermark, waiter } => {
                reveal(ActorModel::raise_sequence_floor);
                reveal(ActorModel::collect_garbage);
                assert(awaits_at(after, object_seq, append, p));
            },
            _ => {
                assert(awaits_at(after, object_seq, append, p));
            },
        }
    }
}

/// An append whose create is in flight when the store is stopped is acknowledged if that create and
/// all earlier ones succeed: over any run in which they do, and in which no later create meets an
/// error that fails the store, it waits until it is acknowledged, and it was acknowledged once no
/// batch is left.
pub proof fn lemma_in_flight_append_is_acknowledged(
    actor: ActorModel,
    events: Seq<Event>,
    object_seq: u64,
    append: PendingModel,
)
    requires
        actor.valid(),
        stopping(actor),
        awaits(actor, object_seq, append),
        forall|i: int|
            0 <= i < events.len() ==> succeeds_upto(#[trigger] events[i], object_seq),
    ensures
        awaits(actor.run(events), object_seq, append) || acknowledged(actor.run(events), append),
        actor.run(events).sealed.len() == 0 ==> acknowledged(actor.run(events), append),
        stopping(actor.run(events)),
        actor.run(events).valid(),
    decreases events.len(),
{
    if events.len() > 0 {
        let front = events.drop_last();
        let earlier = actor.run(front);
        assert forall|i: int| 0 <= i < front.len() implies succeeds_upto(
            #[trigger] front[i],
            object_seq,
        ) by {
            assert(front[i] == events[i]);
        }
        assert(succeeds_upto(events[events.len() - 1], object_seq));
        lemma_in_flight_append_is_acknowledged(actor, front, object_seq, append);
        lemma_in_flight_step(earlier, events.last(), object_seq, append);
        lemma_stopped_step(earlier, events.last());
        lemma_step_follows(earlier, events.last());
    }
}

} // verus!
