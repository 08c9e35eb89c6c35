//! What the outcome of a create does.
use vstd::prelude::*;

use crate::actor_laws::{
    follows, footer_fits, keeps, lemma_create_done_follows, lemma_find_seq_bounds,
    lemma_find_state_bounds, lemma_follows_trans, lemma_front_is_accepted, lemma_in_flight_update,
    lemma_index_front_follows, lemma_release_follows, lemma_settle_front_follows,
    lemma_start_creates_follows, lemma_with_state_follows,
};
use crate::actor_model::{
    acknowledge, answer_all, answer_durable, entry_records, fail_durable, fail_pending, fail_sealed,
    fail_stalled, find_seq, find_state, in_flight, larger, largest_failed, lemma_start_frame,
    place_of, still_waiting, AckMode, ActionModel, ActorModel, CreateState, DurableWaiter,
    SealedModel,
};
use crate::batch::largest_id;
use crate::catalog::{has_region, lemma_by_region_of_increasing, lemma_entry_of};
use crate::error::{Error, Failure};
use crate::format::unencodable;
use crate::id::{EntryId, RegionId};
use crate::logstore::Entry;
use crate::writer_laws::{
    all_started, answers_no_append, create_of, four_run, lemma_start_creates_fills_slots,
    lemma_start_creates_waits, lemma_start_from, same_batch, started,
};

verus! {

/// The append is acknowledged with these ids between the two states.
pub open spec fn acknowledges(
    before: ActorModel,
    after: ActorModel,
    waiter: u64,
    last_ids: Map<u64, EntryId>,
) -> bool {
    exists|i: int|
        before.actions.len() <= i < after.actions.len() && #[trigger] after.actions[i] == (
        ActionModel::AnswerAppend { waiter, result: Ok(last_ids) })
}

/// The append is failed between the two states.
pub open spec fn fails_append(
    before: ActorModel,
    after: ActorModel,
    waiter: u64,
    failure: Failure,
) -> bool {
    exists|i: int|
        before.actions.len() <= i < after.actions.len() && #[trigger] after.actions[i] == (
        ActionModel::AnswerAppend { waiter, result: Err(failure) })
}

/// The request is answered between the two states.
pub open spec fn answers(
    before: ActorModel,
    after: ActorModel,
    waiter: u64,
    result: Result<(), Failure>,
) -> bool {
    exists|i: int|
        before.actions.len() <= i < after.actions.len() && #[trigger] after.actions[i] == (
        ActionModel::Answer { waiter, result })
}

/// What was asked for stays asked for.
pub open spec fn extends(before: ActorModel, after: ActorModel) -> bool {
    &&& before.actions.len() <= after.actions.len()
    &&& forall|i: int|
        0 <= i < before.actions.len() ==> #[trigger] after.actions[i] == before.actions[i]
}

/// The objects that are indexed stay indexed as they are.
pub open spec fn objects_stay(before: ActorModel, after: ActorModel) -> bool {
    forall|seq: u64| #[trigger]
        before.catalog.objects.contains_key(seq) ==> after.catalog.objects.contains_key(seq)
            && after.catalog.objects[seq] == before.catalog.objects[seq]
}

proof fn lemma_follows_extends(before: ActorModel, after: ActorModel)
    requires
        follows(before, after),
    ensures
        extends(before, after),
{
    reveal(keeps);
}

proof fn lemma_flush_keeps_catalog(actor: ActorModel)
    ensures
        actor.flush().catalog == actor.catalog,
        actor.flush().unresolved_object_seq == actor.unresolved_object_seq,
{
    reveal(ActorModel::flush);
    reveal(ActorModel::poison);
    reveal(ActorModel::start_creates);
    if actor.seals() {
        let noted = actor.sealed_noted();
        lemma_start_frame(noted, 0, in_flight(noted.sealed));
    }
}

proof fn lemma_take_in_keeps_catalog(
    actor: ActorModel,
    entries: Seq<Entry>,
    waiter: u64,
    now: u64,
)
    ensures
        actor.take_in(entries, waiter, now).catalog == actor.catalog,
        actor.take_in(entries, waiter, now).unresolved_object_seq == actor.unresolved_object_seq,
{
    reveal(ActorModel::take_in);
    reveal(ActorModel::enter);
    reveal(ActorModel::poison);
    lemma_flush_keeps_catalog(actor);
    let seals_first = actor.batch.entries.len() > 0 && actor.batch.exhausted(entries) is Some;
    let open = if seals_first {
        actor.flush()
    } else {
        actor
    };
    if open.next_object_seq is Some {
        let object_seq = open.next_object_seq->0;
        let last_ids = crate::batch::placed_last_ids(object_seq, open.batch.entries, entries);
        let noted = ActorModel {
            batch: open.batch.with(object_seq, entries, now),
            issued: crate::actor_model::raise_issued(open.issued, last_ids),
            ..open
        };
        lemma_flush_keeps_catalog(
            match open.ack_mode {
                AckMode::Durable => ActorModel {
                    pending: open.pending.push(
                        crate::actor_model::PendingModel { waiter, last_ids },
                    ),
                    ..noted
                },
                AckMode::Enqueued => noted.answer_append(waiter, Ok(last_ids)),
            },
        );
    }
}

/// Letting appends in indexes nothing.
proof fn lemma_release_keeps_catalog(actor: ActorModel, now: u64)
    ensures
        actor.release_stalled(now).catalog == actor.catalog,
        actor.release_stalled(now).unresolved_object_seq == actor.unresolved_object_seq,
    decreases actor.stalled.len(),
{
    if actor.stalled.len() == 0 || actor.stopped {
    } else if actor.at_threshold(now) {
        lemma_flush_keeps_catalog(actor);
    } else {
        let first = actor.stalled[0];
        let popped = ActorModel { stalled: actor.stalled.drop_first(), ..actor };
        let next = popped.take_in(first.entries, first.waiter, now);
        lemma_take_in_keeps_catalog(popped, first.entries, first.waiter, now);
        if next.stalled.len() < actor.stalled.len() {
            lemma_release_keeps_catalog(next, now);
        }
    }
}

proof fn lemma_settle_front_keeps_objects(actor: ActorModel)
    requires
        actor.valid(),
    ensures
        objects_stay(actor, actor.settle_front()),
    decreases actor.sealed.len(),
{
    reveal(ActorModel::poison);
    reveal(ActorModel::roll_back);
    if actor.sealed.len() > 0 && actor.sealed[0].state == CreateState::Created {
        lemma_front_is_accepted(actor);
        lemma_index_front_follows(actor);
        let next = actor.index_front();
        lemma_settle_front_keeps_objects(next);
        assert(!actor.catalog.objects.contains_key(actor.sealed[0].object_seq)) by {
            reveal(ActorModel::valid);
        }
        let after = actor.settle_front();
        assert(after == next.settle_front());
        assert forall|seq: u64| #[trigger]
            actor.catalog.objects.contains_key(seq) implies after.catalog.objects.contains_key(seq)
            && after.catalog.objects[seq] == actor.catalog.objects[seq] by {
            assert(next.catalog.objects.contains_key(seq));
        }
    }
}

proof fn lemma_answers_durable(waiters: Seq<DurableWaiter>, max_ids: Map<u64, EntryId>, k: int)
    requires
        0 <= k < waiters.len(),
        waiters[k].entry_id <= largest_id(max_ids, waiters[k].region_id.0),
    ensures
        answer_durable(waiters, max_ids).contains(
            ActionModel::Answer { waiter: waiters[k].waiter, result: Ok(()) },
        ),
    decreases waiters.len(),
{
    let answer = ActionModel::Answer { waiter: waiters[k].waiter, result: Ok(()) };
    let all = answer_durable(waiters, max_ids);
    let less = answer_durable(waiters.drop_last(), max_ids);
    if k < waiters.len() - 1 {
        lemma_answers_durable(waiters.drop_last(), max_ids, k);
        let i = less.index_of(answer);
        assert(all[i] == answer);
    } else {
        assert(all[less.len() as int] == answer);
    }
}

/// The batch is settled: its object is indexed with its footer, every append in it is acknowledged
/// with its ids, and every request to seal it is answered.
pub open spec fn is_settled(before: ActorModel, after: ActorModel, batch: SealedModel) -> bool {
    &&& after.catalog.objects.contains_key(batch.object_seq)
    &&& after.catalog.objects[batch.object_seq] == batch.footer
    &&& forall|k: int|
        0 <= k < batch.waiters.len() ==> acknowledges(
            before,
            after,
            (#[trigger] batch.waiters[k]).waiter,
            batch.waiters[k].last_ids,
        )
    &&& forall|k: int|
        0 <= k < batch.seal_waiters.len() ==> answers(
            before,
            after,
            #[trigger] batch.seal_waiters[k],
            Ok(()),
        )
}

proof fn lemma_settled_stays(
    before: ActorModel,
    middle: ActorModel,
    after: ActorModel,
    batch: SealedModel,
)
    requires
        is_settled(before, middle, batch),
        extends(middle, after),
        objects_stay(middle, after),
    ensures
        is_settled(before, after, batch),
{
    assert forall|k: int| 0 <= k < batch.waiters.len() implies acknowledges(
        before,
        after,
        (#[trigger] batch.waiters[k]).waiter,
        batch.waiters[k].last_ids,
    ) by {
        let i = choose|i: int|
            before.actions.len() <= i < middle.actions.len() && #[trigger] middle.actions[i] == (
            ActionModel::AnswerAppend {
                waiter: batch.waiters[k].waiter,
                result: Ok(batch.waiters[k].last_ids),
            });
        assert(after.actions[i] == middle.actions[i]);
    }
    assert forall|k: int| 0 <= k < batch.seal_waiters.len() implies answers(
        before,
        after,
        #[trigger] batch.seal_waiters[k],
        Ok(()),
    ) by {
        let i = choose|i: int|
            before.actions.len() <= i < middle.actions.len() && #[trigger] middle.actions[i] == (
            ActionModel::Answer { waiter: batch.seal_waiters[k], result: Ok(()) });
        assert(after.actions[i] == middle.actions[i]);
    }
}

proof fn lemma_settled_from_earlier(
    first: ActorModel,
    before: ActorModel,
    after: ActorModel,
    batch: SealedModel,
)
    requires
        first.actions.len() <= before.actions.len(),
        is_settled(before, after, batch),
    ensures
        is_settled(first, after, batch),
{
    assert forall|k: int| 0 <= k < batch.waiters.len() implies acknowledges(
        first,
        after,
        (#[trigger] batch.waiters[k]).waiter,
        batch.waiters[k].last_ids,
    ) by {
        assert(acknowledges(
            before,
            after,
            batch.waiters[k].waiter,
            batch.waiters[k].last_ids,
        ));
    }
    assert forall|k: int| 0 <= k < batch.seal_waiters.len() implies answers(
        first,
        after,
        #[trigger] batch.seal_waiters[k],
        Ok(()),
    ) by {
        assert(answers(before, after, batch.seal_waiters[k], Ok(())));
    }
}

proof fn lemma_index_front_settles(actor: ActorModel)
    requires
        actor.valid(),
        actor.sealed.len() > 0,
    ensures
        is_settled(actor, actor.index_front(), actor.sealed[0]),
        forall|k: int|
            0 <= k < actor.durable_waiters.len() && (
            #[trigger] actor.durable_waiters[k]).entry_id <= largest_id(
                actor.index_front().catalog.max_ids,
                actor.durable_waiters[k].region_id.0,
            ) ==> answers(
                actor,
                actor.index_front(),
                actor.durable_waiters[k].waiter,
                Ok(()),
            ),
{
    lemma_front_is_accepted(actor);
    let front = actor.sealed[0];
    let after = actor.index_front();
    assert(after.catalog.objects[front.object_seq] == front.footer) by {
        reveal(ActorModel::valid);
        assert(footer_fits(front.footer, front.object_seq));
        lemma_by_region_of_increasing(front.footer);
    }
    let n = actor.actions.len() as int;
    let acks = acknowledge(front.waiters);
    let seals = answer_all(front.seal_waiters, Ok(()));
    let durable = answer_durable(actor.durable_waiters, after.catalog.max_ids);
    assert(after.actions == actor.actions + acks + seals + durable);
    assert forall|k: int| 0 <= k < front.waiters.len() implies acknowledges(
        actor,
        after,
        (#[trigger] front.waiters[k]).waiter,
        front.waiters[k].last_ids,
    ) by {
        assert(after.actions[n + k] == acks[k]);
    }
    assert forall|k: int| 0 <= k < front.seal_waiters.len() implies answers(
        actor,
        after,
        #[trigger] front.seal_waiters[k],
        Ok(()),
    ) by {
        assert(after.actions[n + acks.len() + k] == seals[k]);
    }
    assert forall|k: int|
        0 <= k < actor.durable_waiters.len() && (#[trigger] actor.durable_waiters[k]).entry_id
            <= largest_id(
            after.catalog.max_ids,
            actor.durable_waiters[k].region_id.0,
        ) implies answers(actor, after, actor.durable_waiters[k].waiter, Ok(())) by {
        lemma_answers_durable(actor.durable_waiters, after.catalog.max_ids, k);
        let i = durable.index_of(
            ActionModel::Answer { waiter: actor.durable_waiters[k].waiter, result: Ok(()) },
        );
        assert(after.actions[n + acks.len() + seals.len() + i] == durable[i]);
    }
}

proof fn lemma_settle_front_settles(actor: ActorModel, m: int)
    requires
        actor.valid(),
        0 <= m <= actor.sealed.len(),
        forall|j: int|
            0 <= j < m ==> (#[trigger] actor.sealed[j]).state == CreateState::Created,
    ensures
        forall|j: int|
            0 <= j < m ==> is_settled(actor, actor.settle_front(), #[trigger] actor.sealed[j]),
    decreases actor.sealed.len(),
{
    if m > 0 {
        let after = actor.settle_front();
        let next = actor.index_front();
        lemma_front_is_accepted(actor);
        lemma_index_front_follows(actor);
        lemma_index_front_settles(actor);
        lemma_follows_extends(actor, next);
        assert(actor.sealed[0].state == CreateState::Created);
        assert(after == next.settle_front());
        assert forall|j: int| 0 <= j < m - 1 implies (#[trigger] next.sealed[j]).state
            == CreateState::Created by {
            assert(next.sealed[j] == actor.sealed[j + 1]);
        }
        lemma_settle_front_settles(next, m - 1);
        lemma_settle_front_follows(next);
        lemma_follows_extends(next, after);
        lemma_settle_front_keeps_objects(next);
        assert forall|j: int| 0 <= j < m implies is_settled(
            actor,
            after,
            #[trigger] actor.sealed[j],
        ) by {
            if j == 0 {
                lemma_settled_stays(actor, next, after, actor.sealed[0]);
            } else {
                assert(next.sealed[j - 1] == actor.sealed[j]);
                lemma_settled_from_earlier(actor, next, after, actor.sealed[j]);
            }
        }
    }
}

/// The place of a batch is the one with its sequence.
proof fn lemma_place_of_batch(actor: ActorModel, i: int, from: int)
    requires
        actor.valid(),
        0 <= from <= i < actor.sealed.len(),
    ensures
        find_seq(actor.sealed, actor.sealed[i].object_seq, from) == Some(i),
    decreases i - from,
{
    reveal(ActorModel::valid);
    if from < i {
        assert(actor.sealed[from].object_seq < actor.sealed[i].object_seq);
        lemma_place_of_batch(actor, i, from + 1);
    }
}

/// Once the create of the first batch succeeds, that batch is settled, and with it every created
/// batch that follows it without a gap: the objects are indexed, the appends acknowledged and the
/// requests to seal answered, in either mode and also while the store is being stopped.
pub proof fn lemma_created_batches_are_settled(actor: ActorModel, m: int, now: u64)
    requires
        actor.valid(),
        0 < m <= actor.sealed.len(),
        forall|j: int|
            1 <= j < m ==> (#[trigger] actor.sealed[j]).state == CreateState::Created,
    ensures
        forall|j: int|
            0 <= j < m ==> is_settled(
                actor,
                actor.create_completed(actor.sealed[0].object_seq, Ok(()), now),
                #[trigger] actor.sealed[j],
            ),
        actor.create_completed(actor.sealed[0].object_seq, Ok(()), now).valid(),
{
    let object_seq = actor.sealed[0].object_seq;
    let after = actor.create_completed(object_seq, Ok(()), now);
    let done = actor.create_done(object_seq);
    let noted = done.with_state(0, CreateState::Created);
    let front = noted.settle_front();
    let running = front.start_creates();
    lemma_place_of_batch(actor, 0, 0);
    lemma_create_done_follows(actor, object_seq);
    lemma_with_state_follows(done, 0, CreateState::Created);
    assert forall|j: int| 0 <= j < m implies (#[trigger] noted.sealed[j]).state
        == CreateState::Created by {
        if j > 0 {
            assert(noted.sealed[j] == actor.sealed[j]);
        }
    }
    lemma_settle_front_settles(noted, m);
    lemma_settle_front_follows(noted);
    lemma_start_creates_follows(front);
    lemma_release_follows(running, now);
    lemma_follows_trans(front, running, after);
    lemma_follows_extends(front, after);
    lemma_release_keeps_catalog(running, now);
    assert(running.catalog == front.catalog) by {
        reveal(ActorModel::start_creates);
        lemma_start_frame(front, 0, in_flight(front.sealed));
    }
    assert forall|j: int| 0 <= j < m implies is_settled(
        actor,
        after,
        #[trigger] actor.sealed[j],
    ) by {
        assert(is_settled(noted, front, noted.sealed[j]));
        lemma_settled_stays(noted, front, after, noted.sealed[j]);
        let batch = noted.sealed[j];
        assert(same_batch(batch, actor.sealed[j]));
        assert(noted.actions == actor.actions);
        assert forall|k: int| 0 <= k < actor.sealed[j].waiters.len() implies acknowledges(
            actor,
            after,
            (#[trigger] actor.sealed[j].waiters[k]).waiter,
            actor.sealed[j].waiters[k].last_ids,
        ) by {
            assert(acknowledges(
                noted,
                after,
                batch.waiters[k].waiter,
                batch.waiters[k].last_ids,
            ));
        }
        assert forall|k: int| 0 <= k < actor.sealed[j].seal_waiters.len() implies answers(
            actor,
            after,
            #[trigger] actor.sealed[j].seal_waiters[k],
            Ok(()),
        ) by {
            assert(answers(noted, after, batch.seal_waiters[k], Ok(())));
        }
    }
}

/// Whoever waits until a region is durable is answered with success by the create that makes it
/// so.
pub proof fn lemma_durable_waiters_are_answered(actor: ActorModel, k: int, i: int, now: u64)
    requires
        actor.valid(),
        actor.sealed.len() > 0,
        0 <= k < actor.durable_waiters.len(),
        0 <= i < actor.sealed[0].footer.len(),
        actor.sealed[0].footer[i].region_id == actor.durable_waiters[k].region_id,
        actor.durable_waiters[k].entry_id <= actor.sealed[0].footer[i].max_entry_id,
    ensures
        answers(
            actor,
            actor.create_completed(actor.sealed[0].object_seq, Ok(()), now),
            actor.durable_waiters[k].waiter,
            Ok(()),
        ),
{
    let object_seq = actor.sealed[0].object_seq;
    let after = actor.create_completed(object_seq, Ok(()), now);
    let done = actor.create_done(object_seq);
    let noted = done.with_state(0, CreateState::Created);
    let next = noted.index_front();
    let front = noted.settle_front();
    let running = front.start_creates();
    let footer = actor.sealed[0].footer;
    lemma_place_of_batch(actor, 0, 0);
    lemma_create_done_follows(actor, object_seq);
    lemma_with_state_follows(done, 0, CreateState::Created);
    lemma_front_is_accepted(noted);
    lemma_index_front_follows(noted);
    lemma_index_front_settles(noted);
    assert(front == next.settle_front());
    lemma_settle_front_follows(next);
    lemma_start_creates_follows(front);
    lemma_release_follows(running, now);
    lemma_follows_trans(next, front, running);
    lemma_follows_trans(next, running, after);
    lemma_follows_extends(next, after);
    let region = actor.durable_waiters[k].region_id.0;
    assert(actor.durable_waiters[k].entry_id <= largest_id(next.catalog.max_ids, region)) by {
        reveal(ActorModel::valid);
        assert(footer_fits(noted.sealed[0].footer, noted.sealed[0].object_seq));
        lemma_by_region_of_increasing(footer);
        lemma_entry_of(footer, i);
        assert(has_region(footer, region));
    }
    assert(noted.durable_waiters[k] == actor.durable_waiters[k]);
    assert(answers(noted, next, actor.durable_waiters[k].waiter, Ok(())));
    let a = choose|a: int|
        noted.actions.len() <= a < next.actions.len() && #[trigger] next.actions[a] == (
        ActionModel::Answer { waiter: actor.durable_waiters[k].waiter, result: Ok(()) });
    assert(after.actions[a] == next.actions[a]);
}

/// The create of a later batch that succeeds while the first one is not created settles nothing
/// yet: nothing is indexed and no append is answered, but the batch is known to be created.
pub proof fn lemma_later_batch_waits(actor: ActorModel, i: int, now: u64)
    requires
        actor.valid(),
        actor.ack_mode == AckMode::Durable,
        0 < i < actor.sealed.len(),
        actor.sealed[0].state == CreateState::Pending || actor.sealed[0].state
            == CreateState::InFlight,
    ensures
        ({
            let after = actor.create_completed(actor.sealed[i].object_seq, Ok(()), now);
            &&& after.catalog == actor.catalog
            &&& answers_no_append(actor, after)
            &&& after.sealed.len() == actor.sealed.len()
            &&& after.sealed[i].state == CreateState::Created
            &&& forall|k: int|
                0 <= k < actor.sealed.len() ==> same_batch(
                    #[trigger] after.sealed[k],
                    actor.sealed[k],
                )
        }),
{
    let object_seq = actor.sealed[i].object_seq;
    let done = actor.create_done(object_seq);
    let noted = done.with_state(i, CreateState::Created);
    let after = actor.create_completed(object_seq, Ok(()), now);
    lemma_place_of_batch(actor, i, 0);
    lemma_find_seq_bounds(actor.sealed, object_seq, 0);
    assert(noted.sealed[0] == actor.sealed[0]);
    assert(noted.settle_front() == noted);
    assert(noted.stalled.len() == 0) by {
        reveal(ActorModel::valid);
    }
    lemma_started_frame(noted);
    assert(after == noted.start_creates());
    assert forall|k: int| 0 <= k < actor.sealed.len() implies same_batch(
        #[trigger] after.sealed[k],
        actor.sealed[k],
    ) by {
        assert(same_batch(after.sealed[k], noted.sealed[k]));
    }
}

/// Starting creates answers nobody and changes nothing but the states of the batches.
proof fn lemma_started_frame(actor: ActorModel)
    ensures
        ({
            let after = actor.start_creates();
            &&& after.catalog == actor.catalog
            &&& after.stalled == actor.stalled
            &&& after.sealed.len() == actor.sealed.len()
            &&& answers_no_append(actor, after)
            &&& forall|k: int|
                0 <= k < actor.sealed.len() ==> same_batch(
                    #[trigger] after.sealed[k],
                    actor.sealed[k],
                ) && (after.sealed[k].state == actor.sealed[k].state || started(actor, after, k))
        }),
{
    if actor.draining || actor.stopped && actor.ack_mode == AckMode::Durable {
        lemma_start_creates_waits(actor);
    } else {
        lemma_start_creates_fills_slots(actor);
        let after = actor.start_creates();
        assert forall|i: int| actor.actions.len() <= i < after.actions.len() implies !((
        #[trigger] after.actions[i]) is AnswerAppend) by {
            assert(crate::writer_laws::starts_one(actor, after, after.actions[i]));
        }
    }
}

/// Everything that waits for an entry that is not durable is failed: the appends in sealed
/// batches, in the open batch and those held back, the requests to seal and the durability
/// waiters. Nothing that is not durable is left.
pub open spec fn fails_everything(before: ActorModel, after: ActorModel, failure: Failure) -> bool {
    &&& forall|j: int, k: int|
        0 <= j < before.sealed.len() && 0 <= k < before.sealed[j].waiters.len()
            ==> fails_append(
            before,
            after,
            (#[trigger] before.sealed[j].waiters[k]).waiter,
            failure,
        )
    &&& forall|j: int, k: int|
        0 <= j < before.sealed.len() && 0 <= k < before.sealed[j].seal_waiters.len()
            ==> answers(before, after, #[trigger] before.sealed[j].seal_waiters[k], Err(failure))
    &&& forall|k: int|
        0 <= k < before.pending.len() ==> fails_append(
            before,
            after,
            (#[trigger] before.pending[k]).waiter,
            failure,
        )
    &&& forall|k: int|
        0 <= k < before.stalled.len() ==> fails_append(
            before,
            after,
            (#[trigger] before.stalled[k]).waiter,
            failure,
        )
    &&& forall|k: int|
        0 <= k < before.durable_waiters.len() ==> answers(
            before,
            after,
            (#[trigger] before.durable_waiters[k]).waiter,
            Err(failure),
        )
    &&& after.sealed.len() == 0
    &&& after.batch.entries.len() == 0
    &&& after.batch.first_admitted_at is None
    &&& after.pending.len() == 0
    &&& after.stalled.len() == 0
    &&& after.durable_waiters.len() == 0
    &&& !after.draining
    &&& after.catalog == before.catalog
    &&& after.obsolete == before.obsolete
    &&& after.deleting == before.deleting
}

proof fn lemma_fail_sealed_fails(sealed: Seq<SealedModel>, failure: Failure, j: int)
    requires
        0 <= j < sealed.len(),
    ensures
        forall|k: int|
            0 <= k < sealed[j].waiters.len() ==> fail_sealed(sealed, failure).contains(
                ActionModel::AnswerAppend {
                    waiter: (#[trigger] sealed[j].waiters[k]).waiter,
                    result: Err(failure),
                },
            ),
        forall|k: int|
            0 <= k < sealed[j].seal_waiters.len() ==> fail_sealed(sealed, failure).contains(
                ActionModel::Answer {
                    waiter: #[trigger] sealed[j].seal_waiters[k],
                    result: Err(failure),
                },
            ),
    decreases sealed.len(),
{
    let front = sealed.drop_last();
    let less = fail_sealed(front, failure);
    let all = fail_sealed(sealed, failure);
    let appends = fail_pending(sealed.last().waiters, failure);
    let seals = answer_all(sealed.last().seal_waiters, Err(failure));
    assert(all == less + appends + seals);
    if j < front.len() {
        lemma_fail_sealed_fails(front, failure, j);
    }
    assert forall|k: int| 0 <= k < sealed[j].waiters.len() implies all.contains(
        ActionModel::AnswerAppend {
            waiter: (#[trigger] sealed[j].waiters[k]).waiter,
            result: Err(failure),
        },
    ) by {
        let answer = ActionModel::AnswerAppend {
            waiter: sealed[j].waiters[k].waiter,
            result: Err(failure),
        };
        if j < front.len() {
            assert(front[j].waiters[k] == sealed[j].waiters[k]);
            let i = less.index_of(answer);
            assert(all[i] == answer);
        } else {
            assert(appends[k] == answer);
            assert(all[less.len() + k] == answer);
        }
    }
    assert forall|k: int| 0 <= k < sealed[j].seal_waiters.len() implies all.contains(
        ActionModel::Answer {
            waiter: #[trigger] sealed[j].seal_waiters[k],
            result: Err(failure),
        },
    ) by {
        let answer = ActionModel::Answer {
            waiter: sealed[j].seal_waiters[k],
            result: Err(failure),
        };
        if j < front.len() {
            assert(front[j].seal_waiters[k] == sealed[j].seal_waiters[k]);
            let i = less.index_of(answer);
            assert(all[i] == answer);
        } else {
            assert(seals[k] == answer);
            assert(all[less.len() + appends.len() + k] == answer);
        }
    }
}

proof fn lemma_drop_backlog_fails_everything(actor: ActorModel, failure: Failure)
    ensures
        fails_everything(actor, actor.drop_backlog(failure), failure),
        extends(actor, actor.drop_backlog(failure)),
{
    let after = actor.drop_backlog(failure);
    let n = actor.actions.len() as int;
    let batches = fail_sealed(actor.sealed, failure);
    let appends = fail_pending(actor.pending, failure);
    let held = fail_stalled(actor.stalled, failure);
    let durable = fail_durable(actor.durable_waiters, failure);
    assert(after.actions == actor.actions + batches + appends + held + durable);
    assert forall|j: int, k: int|
        0 <= j < actor.sealed.len() && 0 <= k
            < actor.sealed[j].waiters.len() implies fails_append(
        actor,
        after,
        (#[trigger] actor.sealed[j].waiters[k]).waiter,
        failure,
    ) by {
        lemma_fail_sealed_fails(actor.sealed, failure, j);
        let answer = ActionModel::AnswerAppend {
            waiter: actor.sealed[j].waiters[k].waiter,
            result: Err(failure),
        };
        let i = batches.index_of(answer);
        assert(after.actions[n + i] == answer);
    }
    assert forall|j: int, k: int|
        0 <= j < actor.sealed.len() && 0 <= k
            < actor.sealed[j].seal_waiters.len() implies answers(
        actor,
        after,
        #[trigger] actor.sealed[j].seal_waiters[k],
        Err(failure),
    ) by {
        lemma_fail_sealed_fails(actor.sealed, failure, j);
        let answer = ActionModel::Answer {
            waiter: actor.sealed[j].seal_waiters[k],
            result: Err(failure),
        };
        let i = batches.index_of(answer);
        assert(after.actions[n + i] == answer);
    }
    assert forall|k: int| 0 <= k < actor.pending.len() implies fails_append(
        actor,
        after,
        (#[trigger] actor.pending[k]).waiter,
        failure,
    ) by {
        assert(after.actions[n + batches.len() + k] == appends[k]);
    }
    assert forall|k: int| 0 <= k < actor.stalled.len() implies fails_append(
        actor,
        after,
        (#[trigger] actor.stalled[k]).waiter,
        failure,
    ) by {
        assert(after.actions[n + batches.len() + appends.len() + k] == held[k]);
    }
    assert forall|k: int| 0 <= k < actor.durable_waiters.len() implies answers(
        actor,
        after,
        (#[trigger] actor.durable_waiters[k]).waiter,
        Err(failure),
    ) by {
        assert(after.actions[n + batches.len() + appends.len() + held.len() + k] == durable[k]);
    }
}

/// How a store tells that an entry never became durable: as stopped once it is stopped, and with
/// the cause otherwise.
pub open spec fn told(actor: ActorModel, error: Error) -> Failure {
    if actor.stopped {
        Failure::Own(Error::ObjectStoreWalStopped)
    } else {
        Failure::Shared(error)
    }
}

/// A create that fails for another reason than the object store being unavailable ends the store:
/// the error is its terminal error, and everything that is not durable is failed with it. In the
/// enqueued mode stop reports the loss.
pub proof fn lemma_fatal_create_ends_the_store(
    actor: ActorModel,
    i: int,
    error: Error,
    now: u64,
)
    requires
        actor.valid(),
        0 <= i < actor.sealed.len(),
        !(error is WalObjectStore),
    ensures
        ({
            let after = actor.create_completed(actor.sealed[i].object_seq, Err(error), now);
            let first = if actor.terminal is Some {
                actor.terminal->0
            } else {
                error
            };
            &&& after.terminal == Some(first)
            &&& fails_everything(actor, after, told(actor, first))
            &&& actor.ack_mode == AckMode::Enqueued ==> after.stop_error is Some && (
            actor.stop_error is None ==> after.stop_error == Some(first))
            &&& after.next_object_seq == actor.next_object_seq
        }),
{
    reveal(ActorModel::poison);
    let object_seq = actor.sealed[i].object_seq;
    lemma_place_of_batch(actor, i, 0);
    let done = actor.create_done(object_seq);
    let recorded = done.set_terminal(error);
    let failure = told(actor, recorded.terminal->0);
    lemma_drop_backlog_fails_everything(recorded, failure);
    let dropped = recorded.drop_backlog(failure);
    let after = actor.create_completed(object_seq, Err(error), now);
    assert(after.actions == dropped.actions);
    lemma_same_waiters(actor, recorded, dropped, after, failure);
}

/// What is failed depends on what waits only.
proof fn lemma_same_waiters(
    before: ActorModel,
    recorded: ActorModel,
    dropped: ActorModel,
    after: ActorModel,
    failure: Failure,
)
    requires
        fails_everything(recorded, dropped, failure),
        extends(recorded, dropped),
        extends(dropped, after),
        recorded.actions == before.actions,
        recorded.sealed.len() == before.sealed.len(),
        forall|j: int|
            0 <= j < before.sealed.len() ==> same_batch(
                #[trigger] recorded.sealed[j],
                before.sealed[j],
            ),
        recorded.pending == before.pending,
        recorded.stalled == before.stalled,
        recorded.durable_waiters == before.durable_waiters,
        recorded.catalog == before.catalog,
        recorded.obsolete == before.obsolete,
        recorded.deleting == before.deleting,
        after.sealed == dropped.sealed,
        after.batch == dropped.batch,
        after.pending == dropped.pending,
        after.stalled == dropped.stalled,
        after.durable_waiters == dropped.durable_waiters,
        after.draining == dropped.draining,
        after.catalog == dropped.catalog,
        after.obsolete == dropped.obsolete,
        after.deleting == dropped.deleting,
    ensures
        fails_everything(before, after, failure),
{
    assert forall|waiter: u64| #[trigger]
        fails_append(recorded, dropped, waiter, failure) implies fails_append(
        before,
        after,
        waiter,
        failure,
    ) by {
        let i = choose|i: int|
            recorded.actions.len() <= i < dropped.actions.len() && #[trigger] dropped.actions[i]
                == (ActionModel::AnswerAppend { waiter, result: Err(failure) });
        assert(after.actions[i] == dropped.actions[i]);
    }
    assert forall|waiter: u64| #[trigger]
        answers(recorded, dropped, waiter, Err(failure)) implies answers(
        before,
        after,
        waiter,
        Err(failure),
    ) by {
        let i = choose|i: int|
            recorded.actions.len() <= i < dropped.actions.len() && #[trigger] dropped.actions[i]
                == (ActionModel::Answer { waiter, result: Err(failure) });
        assert(after.actions[i] == dropped.actions[i]);
    }
    assert forall|j: int, k: int|
        0 <= j < before.sealed.len() && 0 <= k
            < before.sealed[j].waiters.len() implies fails_append(
        before,
        after,
        (#[trigger] before.sealed[j].waiters[k]).waiter,
        failure,
    ) by {
        assert(same_batch(recorded.sealed[j], before.sealed[j]));
        assert(fails_append(
            recorded,
            dropped,
            recorded.sealed[j].waiters[k].waiter,
            failure,
        ));
    }
    assert forall|j: int, k: int|
        0 <= j < before.sealed.len() && 0 <= k
            < before.sealed[j].seal_waiters.len() implies answers(
        before,
        after,
        #[trigger] before.sealed[j].seal_waiters[k],
        Err(failure),
    ) by {
        assert(same_batch(recorded.sealed[j], before.sealed[j]));
        assert(answers(recorded, dropped, recorded.sealed[j].seal_waiters[k], Err(failure)));
    }
    assert forall|k: int| 0 <= k < before.pending.len() implies fails_append(
        before,
        after,
        (#[trigger] before.pending[k]).waiter,
        failure,
    ) by {
        assert(fails_append(recorded, dropped, recorded.pending[k].waiter, failure));
    }
    assert forall|k: int| 0 <= k < before.stalled.len() implies fails_append(
        before,
        after,
        (#[trigger] before.stalled[k]).waiter,
        failure,
    ) by {
        assert(fails_append(recorded, dropped, recorded.stalled[k].waiter, failure));
    }
    assert forall|k: int| 0 <= k < before.durable_waiters.len() implies answers(
        before,
        after,
        (#[trigger] before.durable_waiters[k]).waiter,
        Err(failure),
    ) by {
        assert(answers(
            recorded,
            dropped,
            recorded.durable_waiters[k].waiter,
            Err(failure),
        ));
    }
}

/// No batch other than that at place `i` is in the state.
pub open spec fn no_other_is(sealed: Seq<SealedModel>, state: CreateState, i: int) -> bool {
    forall|j: int| 0 <= j < sealed.len() && j != i ==> (#[trigger] sealed[j]).state != state
}

/// Why the first batch failed, once the create of the batch at place `i` failed.
pub open spec fn first_cause(actor: ActorModel, i: int, error: Error) -> Error {
    if i == 0 {
        error
    } else {
        actor.sealed[0].state->Failed_0
    }
}

pub(crate) proof fn lemma_state_is_found(
    sealed: Seq<SealedModel>,
    state: CreateState,
    from: int,
    at: int,
)
    requires
        0 <= from <= at < sealed.len(),
        sealed[at].state == state,
    ensures
        find_state(sealed, state, from) is Some,
    decreases at - from,
{
    if from < at {
        lemma_state_is_found(sealed, state, from + 1, at);
    }
}

proof fn lemma_largest_failed(sealed: Seq<SealedModel>, j: int)
    requires
        0 <= j < sealed.len(),
        sealed[j].state is Failed,
    ensures
        largest_failed(sealed) matches Some(seq) && sealed[j].object_seq <= seq,
    decreases sealed.len(),
{
    if j < sealed.len() - 1 {
        let front = sealed.drop_last();
        assert(front[j] == sealed[j]);
        lemma_largest_failed(front, j);
    }
}

/// In the durable mode, and in either mode once the store is stopped, a create that fails because
/// the object store is unavailable is not repeated. Once no create runs any more, the first batch
/// failed and no later one was created, everything that is not durable is failed with the cause of
/// the first failure, and its sequence is used again. The store goes on. The sequences of the
/// failed batches are remembered, because their objects may exist.
pub proof fn lemma_failed_create_rolls_back(actor: ActorModel, i: int, error: Error, now: u64)
    requires
        actor.valid(),
        actor.ack_mode == AckMode::Durable || actor.stopped,
        0 <= i < actor.sealed.len(),
        error is WalObjectStore,
        no_other_is(actor.sealed, CreateState::InFlight, i),
        no_other_is(actor.sealed, CreateState::Created, i),
        i > 0 ==> actor.sealed[0].state is Failed,
    ensures
        ({
            let after = actor.create_completed(actor.sealed[i].object_seq, Err(error), now);
            &&& after.next_object_seq == Some(actor.sealed[0].object_seq)
            &&& after.terminal == actor.terminal
            &&& fails_everything(actor, after, told(actor, first_cause(actor, i, error)))
            &&& actor.ack_mode == AckMode::Enqueued ==> after.stop_error is Some && (
            actor.stop_error is None ==> after.stop_error == Some(first_cause(actor, i, error)))
            &&& forall|j: int|
                0 <= j < actor.sealed.len() && (j == i || (
                #[trigger] actor.sealed[j]).state is Failed) ==> (
                after.unresolved_object_seq matches Some(seq) && actor.sealed[j].object_seq
                    <= seq)
        }),
{
    reveal(ActorModel::roll_back);
    let object_seq = actor.sealed[i].object_seq;
    let done = actor.create_done(object_seq);
    let noted = ActorModel {
        draining: true,
        ..done.with_state(i, CreateState::Failed(error))
    };
    let after = actor.create_completed(object_seq, Err(error), now);
    let cause = first_cause(actor, i, error);
    let failure = told(actor, cause);
    lemma_place_of_batch(actor, i, 0);
    assert forall|j: int| 0 <= j < noted.sealed.len() implies (
    #[trigger] noted.sealed[j]).state != CreateState::InFlight && noted.sealed[j].state
        != CreateState::Created by {
        if j != i {
            assert(noted.sealed[j] == actor.sealed[j]);
        }
    }
    lemma_find_state_bounds(noted.sealed, CreateState::InFlight, 0);
    lemma_find_state_bounds(noted.sealed, CreateState::Created, 1);
    let settled = noted.settle_front();
    assert(settled == noted.roll_back(actor.sealed[0].object_seq, cause));
    let recorded = ActorModel {
        next_object_seq: Some(actor.sealed[0].object_seq),
        unresolved_object_seq: larger(
            noted.unresolved_object_seq,
            largest_failed(noted.sealed),
        ),
        ..noted
    };
    lemma_drop_backlog_fails_everything(recorded, failure);
    let dropped = recorded.drop_backlog(failure);
    assert(settled == dropped.lose_backlog(cause));
    assert(settled.start_creates() == settled) by {
        reveal(ActorModel::start_creates);
    }
    assert(after == settled);
    lemma_same_waiters(actor, recorded, dropped, after, failure);
    assert forall|j: int|
        0 <= j < actor.sealed.len() && (j == i || (
        #[trigger] actor.sealed[j]).state is Failed) implies (
    after.unresolved_object_seq matches Some(seq) && actor.sealed[j].object_seq <= seq) by {
        assert(noted.sealed[j].object_seq == actor.sealed[j].object_seq);
        lemma_largest_failed(noted.sealed, j);
    }
}

/// A batch that failed before one that was created leaves a gap in the history, which ends the
/// store: everything that is not durable is failed with the error that names the two sequences.
pub proof fn lemma_gap_ends_the_store(
    actor: ActorModel,
    i: int,
    later: int,
    error: Error,
    now: u64,
)
    requires
        actor.valid(),
        actor.ack_mode == AckMode::Durable || actor.stopped,
        actor.terminal is None,
        0 <= i < actor.sealed.len(),
        error is WalObjectStore,
        no_other_is(actor.sealed, CreateState::InFlight, i),
        i > 0 ==> actor.sealed[0].state is Failed,
        0 < later < actor.sealed.len(),
        later != i,
        actor.sealed[later].state == CreateState::Created,
    ensures
        ({
            let after = actor.create_completed(actor.sealed[i].object_seq, Err(error), now);
            &&& after.terminal matches Some(Error::WalObjectHistoryGap {
                object_seq,
                later_object_seq,
            }) && object_seq == actor.sealed[0].object_seq && object_seq < later_object_seq
                && later_object_seq <= actor.sealed[later].object_seq
            &&& fails_everything(actor, after, told(actor, after.terminal->0))
        }),
{
    reveal(ActorModel::poison);
    let object_seq = actor.sealed[i].object_seq;
    let done = actor.create_done(object_seq);
    let noted = ActorModel {
        draining: true,
        ..done.with_state(i, CreateState::Failed(error))
    };
    let after = actor.create_completed(object_seq, Err(error), now);
    lemma_place_of_batch(actor, i, 0);
    assert forall|j: int| 0 <= j < noted.sealed.len() implies (
    #[trigger] noted.sealed[j]).state != CreateState::InFlight by {
        if j != i {
            assert(noted.sealed[j] == actor.sealed[j]);
        }
    }
    lemma_find_state_bounds(noted.sealed, CreateState::InFlight, 0);
    lemma_find_state_bounds(noted.sealed, CreateState::Created, 1);
    assert(noted.sealed[later] == actor.sealed[later]);
    lemma_state_is_found(noted.sealed, CreateState::Created, 1, later);
    lemma_first_is_found(noted.sealed, CreateState::Created, 1, later);
    let found = find_state(noted.sealed, CreateState::Created, 1)->0;
    let gap = Error::WalObjectHistoryGap {
        object_seq: noted.sealed[0].object_seq,
        later_object_seq: noted.sealed[found].object_seq,
    };
    assert(noted.sealed[0].object_seq == actor.sealed[0].object_seq);
    assert(noted.sealed[found].object_seq == actor.sealed[found].object_seq);
    assert(actor.sealed[0].object_seq < actor.sealed[found].object_seq
        && actor.sealed[found].object_seq <= actor.sealed[later].object_seq) by {
        reveal(ActorModel::valid);
    }
    let settled = noted.settle_front();
    assert(settled == noted.poison(gap));
    let recorded = noted.set_terminal(gap);
    let failure = told(actor, gap);
    lemma_drop_backlog_fails_everything(recorded, failure);
    let dropped = recorded.drop_backlog(failure);
    assert(settled == dropped.lose_backlog(gap));
    assert(settled.start_creates() == settled) by {
        reveal(ActorModel::start_creates);
    }
    assert(after == settled);
    lemma_same_waiters(actor, recorded, dropped, after, failure);
}

proof fn lemma_first_is_found(sealed: Seq<SealedModel>, state: CreateState, from: int, at: int)
    requires
        0 <= from <= at < sealed.len(),
        sealed[at].state == state,
    ensures
        find_state(sealed, state, from) matches Some(found) && from <= found <= at,
    decreases at - from,
{
    if from < at && sealed[from].state != state {
        lemma_first_is_found(sealed, state, from + 1, at);
    }
}

/// In the durable mode, while other creates run, a failed create is only noted: nobody is answered,
/// nothing is dropped, and no create is started until the others have completed.
pub proof fn lemma_failed_create_drains(
    actor: ActorModel,
    i: int,
    other: int,
    error: Error,
    now: u64,
)
    requires
        actor.valid(),
        actor.ack_mode == AckMode::Durable,
        0 <= i < actor.sealed.len(),
        0 <= other < actor.sealed.len(),
        i != other,
        actor.sealed[other].state == CreateState::InFlight,
        actor.sealed[0].state != CreateState::Created,
        error is WalObjectStore,
    ensures
        ({
            let after = actor.create_completed(actor.sealed[i].object_seq, Err(error), now);
            &&& after.draining
            &&& after.actions == actor.actions
            &&& after.sealed == actor.sealed.update(
                i,
                SealedModel { state: CreateState::Failed(error), ..actor.sealed[i] },
            )
            &&& after == (ActorModel {
                draining: after.draining,
                sealed: after.sealed,
                creates: after.creates,
                ..actor
            })
        }),
{
    let object_seq = actor.sealed[i].object_seq;
    let done = actor.create_done(object_seq);
    let noted = ActorModel {
        draining: true,
        ..done.with_state(i, CreateState::Failed(error))
    };
    lemma_place_of_batch(actor, i, 0);
    assert(noted.sealed[other] == actor.sealed[other]);
    lemma_state_is_found(noted.sealed, CreateState::InFlight, 0, other);
    assert(noted.settle_front() == noted);
    lemma_start_creates_waits(noted);
    assert(noted.stalled.len() == 0) by {
        reveal(ActorModel::valid);
    }
}

/// In the enqueued mode a create that fails because the object store is unavailable is repeated:
/// nothing is dropped and nobody is answered, and the create of the same object is asked for again,
/// as a repeated one, unless an earlier batch takes the slot.
pub proof fn lemma_failed_create_is_repeated(actor: ActorModel, i: int, error: Error, now: u64)
    requires
        actor.valid(),
        actor.ack_mode == AckMode::Enqueued,
        !actor.stopped,
        !actor.draining,
        actor.stalled.len() == 0,
        0 <= i < actor.sealed.len(),
        actor.sealed[i].state == CreateState::InFlight,
        actor.sealed[0].state == CreateState::InFlight || actor.sealed[0].state
            == CreateState::Pending,
        error is WalObjectStore,
    ensures
        ({
            let after = actor.create_completed(actor.sealed[i].object_seq, Err(error), now);
            &&& answers_no_append(actor, after)
            &&& after.sealed.len() == actor.sealed.len()
            &&& forall|k: int|
                0 <= k < actor.sealed.len() ==> same_batch(
                    #[trigger] after.sealed[k],
                    actor.sealed[k],
                )
            &&& after.catalog == actor.catalog
            &&& after.terminal == actor.terminal
            &&& after.next_object_seq == actor.next_object_seq
            &&& all_started(after.sealed) || four_run(after.sealed)
            &&& (forall|j: int|
                0 <= j < i ==> (#[trigger] actor.sealed[j]).state != CreateState::Pending)
                ==> after.sealed[i].state == CreateState::InFlight && asks_to_create(
                actor,
                after,
                actor.sealed[i].object_seq,
                actor.sealed[i].attempts != 0,
            )
        }),
{
    let object_seq = actor.sealed[i].object_seq;
    let done = actor.create_done(object_seq);
    let noted = done.with_state(i, CreateState::Pending);
    let after = actor.create_completed(object_seq, Err(error), now);
    lemma_place_of_batch(actor, i, 0);
    assert(noted.sealed[0].state != CreateState::Created && !(noted.sealed[0].state is Failed));
    assert(noted.settle_front() == noted);
    lemma_start_creates_fills_slots(noted);
    lemma_started_frame(noted);
    assert(after == noted.start_creates());
    assert forall|k: int| 0 <= k < actor.sealed.len() implies same_batch(
        #[trigger] after.sealed[k],
        actor.sealed[k],
    ) by {
        assert(same_batch(after.sealed[k], noted.sealed[k]));
    }
    if forall|j: int| 0 <= j < i ==> (#[trigger] actor.sealed[j]).state != CreateState::Pending {
        lemma_in_flight_update(done.sealed, i, noted.sealed[i]);
        assert(in_flight(noted.sealed) < 4) by {
            reveal(ActorModel::valid);
        }
        reveal(ActorModel::start_creates);
        lemma_start_from(noted, 0, in_flight(noted.sealed));
        assert forall|j: int| 0 <= j < i implies (#[trigger] noted.sealed[j]).state
            != CreateState::Pending by {
            assert(noted.sealed[j] == actor.sealed[j]);
        }
        assert(after.sealed[i].state != CreateState::Pending);
        assert(started(noted, after, i));
        let a = choose|a: int|
            noted.actions.len() <= a < after.actions.len() && #[trigger] after.actions[a]
                == create_of(noted.sealed[i]);
        assert(after.actions[a] == (ActionModel::Create {
            object_seq,
            delayed: actor.sealed[i].attempts != 0,
        }));
    }
}

/// The create of the object is asked for between the two states, as a repeated one or not.
pub open spec fn asks_to_create(
    before: ActorModel,
    after: ActorModel,
    object_seq: u64,
    repeated: bool,
) -> bool {
    exists|i: int|
        before.actions.len() <= i < after.actions.len() && #[trigger] after.actions[i] == (
        ActionModel::Create { object_seq, delayed: repeated })
}

/// The outcome of a create of which no batch is left changes nothing but what runs.
pub proof fn lemma_forgotten_create(
    actor: ActorModel,
    object_seq: u64,
    result: Result<(), Error>,
    now: u64,
)
    requires
        forall|i: int|
            0 <= i < actor.sealed.len() ==> (#[trigger] actor.sealed[i]).object_seq != object_seq,
    ensures
        actor.create_completed(object_seq, result, now) == (ActorModel {
            creates: actor.create_completed(object_seq, result, now).creates,
            ..actor
        }),
{
    lemma_find_seq_bounds(actor.sealed, object_seq, 0);
}

/// A create that completed is counted as running once less, and the others stay.
pub proof fn lemma_create_is_done(actor: ActorModel, object_seq: u64)
    ensures
        actor.creates.contains(object_seq) ==> actor.create_done(
            object_seq,
        ).creates.to_multiset() == actor.creates.to_multiset().remove(object_seq),
        !actor.creates.contains(object_seq) ==> actor.create_done(object_seq) == actor,
{
    let creates = actor.creates;
    lemma_place_bounds(creates, object_seq, 0);
    if creates.contains(object_seq) {
        let at = place_of(creates, object_seq, 0)->0;
        creates.to_multiset_ensures();
    }
}

proof fn lemma_place_bounds(seqs: Seq<u64>, object_seq: u64, from: int)
    requires
        0 <= from,
    ensures
        place_of(seqs, object_seq, from) matches Some(at) ==> from <= at < seqs.len() && seqs[at]
            == object_seq,
        place_of(seqs, object_seq, from) is None ==> forall|k: int|
            from <= k < seqs.len() ==> #[trigger] seqs[k] != object_seq,
    decreases seqs.len() - from,
{
    if from < seqs.len() && seqs[from] != object_seq {
        lemma_place_bounds(seqs, object_seq, from + 1);
    }
}

/// Waiting until a region is durable: a failed store answers with its error. What is durable is
/// answered with success at once. What was dropped is answered with the loss. What was never
/// handed out is answered with success at once, and everything else waits.
pub proof fn lemma_wait_for_durability(
    actor: ActorModel,
    region_id: RegionId,
    entry_id: EntryId,
    waiter: u64,
)
    ensures
        ({
            let after = actor.wait_durable(region_id, entry_id, waiter);
            let region = region_id.0;
            let is_durable = entry_id == 0 || actor.catalog.max_ids.contains_key(region) && entry_id
                <= actor.catalog.max_ids[region];
            let was_issued = entry_id == 0 || actor.issued.contains_key(region) && entry_id
                <= actor.issued[region];
            let ok = actor.act(ActionModel::Answer { waiter, result: Ok(()) });
            &&& actor.terminal matches Some(error) ==> after == actor.act(
                ActionModel::Answer { waiter, result: Err(Failure::Shared(error)) },
            )
            &&& actor.terminal is None && is_durable ==> after == ok
            &&& actor.terminal is None && !is_durable && actor.stop_error is Some ==> after
                == actor.act(
                ActionModel::Answer {
                    waiter,
                    result: Err(Failure::Shared(actor.stop_error->0)),
                },
            )
            &&& actor.terminal is None && !is_durable && actor.stop_error is None && !was_issued
                ==> after == ok
            &&& actor.terminal is None && !is_durable && actor.stop_error is None && was_issued
                ==> after.actions == actor.actions && after.durable_waiters
                == actor.durable_waiters.push(DurableWaiter { region_id, entry_id, waiter })
                && after == (ActorModel { durable_waiters: after.durable_waiters, ..actor })
        }),
{
}

/// What is unresolved is above the bound.
pub open spec fn is_resolved_upto(actor: ActorModel, bound: u64) -> bool {
    actor.unresolved_object_seq matches Some(seq) ==> bound < seq
}

proof fn lemma_largest_failed_above(sealed: Seq<SealedModel>, bound: u64)
    requires
        forall|i: int| 0 <= i < sealed.len() ==> bound < (#[trigger] sealed[i]).object_seq,
    ensures
        largest_failed(sealed) matches Some(seq) ==> bound < seq,
    decreases sealed.len(),
{
    if sealed.len() > 0 {
        let front = sealed.drop_last();
        assert forall|i: int| 0 <= i < front.len() implies bound < (
        #[trigger] front[i]).object_seq by {
            assert(front[i] == sealed[i]);
        }
        lemma_largest_failed_above(front, bound);
        assert(bound < sealed[sealed.len() - 1].object_seq);
    }
}

proof fn lemma_settle_front_resolves(actor: ActorModel, bound: u64)
    requires
        actor.valid(),
        is_resolved_upto(actor, bound),
        forall|i: int|
            0 <= i < actor.sealed.len() ==> bound < (#[trigger] actor.sealed[i]).object_seq,
    ensures
        is_resolved_upto(actor.settle_front(), bound),
    decreases actor.sealed.len(),
{
    reveal(ActorModel::poison);
    reveal(ActorModel::roll_back);
    lemma_largest_failed_above(actor.sealed, bound);
    if actor.sealed.len() > 0 && actor.sealed[0].state == CreateState::Created {
        lemma_front_is_accepted(actor);
        lemma_index_front_follows(actor);
        let next = actor.index_front();
        assert forall|i: int| 0 <= i < next.sealed.len() implies bound < (
        #[trigger] next.sealed[i]).object_seq by {
            assert(next.sealed[i] == actor.sealed[i + 1]);
        }
        lemma_settle_front_resolves(next, bound);
    }
}

/// An object that is created resolves what was open about its sequence and the earlier ones: it is
/// no longer possible that another object of one of them exists.
pub proof fn lemma_created_object_resolves(actor: ActorModel, now: u64)
    requires
        actor.valid(),
        actor.sealed.len() > 0,
    ensures
        is_resolved_upto(
            actor.create_completed(actor.sealed[0].object_seq, Ok(()), now),
            actor.sealed[0].object_seq,
        ),
{
    let object_seq = actor.sealed[0].object_seq;
    let done = actor.create_done(object_seq);
    let noted = done.with_state(0, CreateState::Created);
    let next = noted.index_front();
    let front = noted.settle_front();
    lemma_place_of_batch(actor, 0, 0);
    lemma_create_done_follows(actor, object_seq);
    lemma_with_state_follows(done, 0, CreateState::Created);
    lemma_front_is_accepted(noted);
    lemma_index_front_follows(noted);
    assert(front == next.settle_front());
    assert forall|i: int| 0 <= i < next.sealed.len() implies object_seq < (
    #[trigger] next.sealed[i]).object_seq by {
        reveal(ActorModel::valid);
        assert(next.sealed[i] == noted.sealed[i + 1]);
        assert(noted.sealed[0].object_seq < noted.sealed[i + 1].object_seq);
    }
    assert(is_resolved_upto(next, object_seq));
    lemma_settle_front_resolves(next, object_seq);
    reveal(ActorModel::start_creates);
    lemma_start_frame(front, 0, in_flight(front.sealed));
    lemma_release_keeps_catalog(front.start_creates(), now);
}

/// The region is durable through the id that is waited for.
pub open spec fn has_become_durable(actor: ActorModel, waiter: DurableWaiter) -> bool {
    let ids = actor.catalog.max_ids;
    let region = waiter.region_id.0;
    waiter.entry_id == 0 || ids.contains_key(region) && waiter.entry_id <= ids[region]
}

proof fn lemma_still_waiting(waiters: Seq<DurableWaiter>, max_ids: Map<u64, EntryId>)
    ensures
        forall|w: DurableWaiter| #[trigger]
            still_waiting(waiters, max_ids).contains(w) <==> waiters.contains(w) && w.entry_id
                > largest_id(max_ids, w.region_id.0),
        still_waiting(waiters, max_ids).len() + answer_durable(waiters, max_ids).len()
            == waiters.len(),
    decreases waiters.len(),
{
    if waiters.len() > 0 {
        let rest = waiters.drop_last();
        let last = waiters.last();
        lemma_still_waiting(rest, max_ids);
        let less = still_waiting(rest, max_ids);
        let all = still_waiting(waiters, max_ids);
        assert forall|w: DurableWaiter| #[trigger] all.contains(w) <==> waiters.contains(w)
            && w.entry_id > largest_id(max_ids, w.region_id.0) by {
            if all.contains(w) {
                let i = all.index_of(w);
                if i < less.len() {
                    assert(less[i] == w);
                    assert(less.contains(w));
                    assert(waiters[rest.index_of(w)] == w);
                } else {
                    assert(waiters[waiters.len() - 1] == w);
                }
            }
            if waiters.contains(w) && w.entry_id > largest_id(max_ids, w.region_id.0) {
                let i = waiters.index_of(w);
                if i < rest.len() {
                    assert(rest[i] == w);
                    assert(less.contains(w));
                    assert(all[less.index_of(w)] == w);
                } else {
                    assert(all[less.len() as int] == w);
                }
            }
        }
    }
}

/// Indexing the first batch answers exactly the waiters whose regions are durable by then, and the
/// others keep waiting.
pub proof fn lemma_others_keep_waiting(actor: ActorModel)
    requires
        actor.valid(),
        actor.sealed.len() > 0,
    ensures
        forall|w: DurableWaiter| #[trigger]
            actor.index_front().durable_waiters.contains(w) <==> actor.durable_waiters.contains(w)
                && !has_become_durable(actor.index_front(), w),
        forall|k: int|
            0 <= k < actor.durable_waiters.len() && has_become_durable(
                actor.index_front(),
                #[trigger] actor.durable_waiters[k],
            ) ==> answers(
                actor,
                actor.index_front(),
                actor.durable_waiters[k].waiter,
                Ok(()),
            ),
        actor.index_front().actions.len() + actor.index_front().durable_waiters.len()
            == actor.actions.len() + actor.sealed[0].waiters.len()
            + actor.sealed[0].seal_waiters.len() + actor.durable_waiters.len(),
{
    lemma_front_is_accepted(actor);
    lemma_index_front_settles(actor);
    let after = actor.index_front();
    lemma_still_waiting(actor.durable_waiters, after.catalog.max_ids);
}

/// An open batch that cannot be written ends the store: the reason is part of its terminal error,
/// and everything that is not durable is failed with it.
pub proof fn lemma_unencodable_batch_ends_the_store(actor: ActorModel)
    requires
        actor.valid(),
        actor.terminal is None,
        actor.batch.entries.len() > 0,
        unencodable(entry_records(actor.batch.entries)) is Some,
    ensures
        ({
            let after = actor.flush();
            &&& after.terminal == Some(
                Error::UnencodableWalObject {
                    reason: unencodable(entry_records(actor.batch.entries))->0,
                },
            )
            &&& fails_everything(actor, after, told(actor, after.terminal->0))
            &&& after.next_object_seq == actor.next_object_seq
        }),
{
    reveal(ActorModel::flush);
    reveal(ActorModel::poison);
    assert(actor.next_object_seq is Some) by {
        reveal(ActorModel::valid);
    }
    let error = Error::UnencodableWalObject {
        reason: unencodable(entry_records(actor.batch.entries))->0,
    };
    let recorded = ActorModel { batch: actor.batch.cleared(), ..actor }.set_terminal(error);
    let failure = told(actor, error);
    lemma_drop_backlog_fails_everything(recorded, failure);
    lemma_same_waiters(
        actor,
        recorded,
        recorded.drop_backlog(failure),
        actor.flush(),
        failure,
    );
}

/// A request to seal is refused as stopped once the store is stopped, and answered with the error
/// of a failed store that has nothing to seal.
pub proof fn lemma_seal_is_refused(actor: ActorModel, waiter: u64)
    ensures
        actor.stopped ==> actor.seal_requested(waiter) == actor.act(
            ActionModel::Answer {
                waiter,
                result: Err(Failure::Own(Error::ObjectStoreWalStopped)),
            },
        ),
        !actor.stopped && actor.terminal is Some && actor.batch.entries.len() == 0
            ==> actor.seal_requested(waiter) == actor.act(
            ActionModel::Answer { waiter, result: Err(Failure::Shared(actor.terminal->0)) },
        ),
{
    reveal(ActorModel::flush);
}

} // verus!
