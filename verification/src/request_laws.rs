//! What becomes of an append and of the outcome of a create.
use vstd::prelude::*;

use crate::actor_laws::{
    lemma_find_state_bounds, lemma_flush_follows, lemma_last_of_region, lemma_popped_follows,
};
use crate::actor_model::{
    answer_all, entry_records, fail_durable, fail_stalled, find_state, in_flight, lemma_start_frame,
    sealed_bytes, AckMode, ActionModel, ActorModel, CreateState, PendingModel, SealedModel,
    StalledModel,
};
use crate::batch::{exhausted_from, placed, placed_last_ids};
use crate::encode_laws::lemma_open_batch_is_encodable;
use crate::error::{Error, Failure};
use crate::format::{footer_of, grouped};
use crate::id::{EntryId, RegionId};
use crate::logstore::{
    count_region, lemma_count_concat, lemma_size_concat, total_size, with_id, Entry,
};
use crate::outcome_laws::{answers, fails_append};
use crate::writer_laws::{
    all_started, answers_no_append, four_run, is_sealed, lemma_flush_seals_the_batch, same_batch,
    small,
};

verus! {

/// The size of entries is the sum of their sizes.
pub proof fn lemma_size_adds_up(entries: Seq<Entry>, entry: Entry)
    ensures
        total_size(Seq::<Entry>::empty()) == 0,
        total_size(entries.push(entry)) == total_size(entries) + entry.estimated_size,
{
    assert(entries.push(entry).drop_last() =~= entries);
}

/// The entries of a region are counted one by one.
pub proof fn lemma_count_adds_up(entries: Seq<Entry>, entry: Entry, region: u64)
    ensures
        count_region(Seq::<Entry>::empty(), region) == 0,
        count_region(entries.push(entry), region) == count_region(entries, region) + (
        if entry.region_id.0 == region {
            1int
        } else {
            0
        }),
{
    assert(entries.push(entry).drop_last() =~= entries);
}

/// The bytes of sealed batches are the sum of the bytes of each, whatever its state.
pub proof fn lemma_sealed_bytes_add_up(sealed: Seq<SealedModel>, batch: SealedModel)
    ensures
        sealed_bytes(Seq::<SealedModel>::empty()) == 0,
        sealed_bytes(sealed.push(batch)) == sealed_bytes(sealed) + batch.bytes.len(),
{
    assert(sealed.push(batch).drop_last() =~= sealed);
}

/// What is not durable is below both thresholds.
pub open spec fn below_thresholds(actor: ActorModel, now: u64) -> bool {
    let oldest = if actor.sealed.len() > 0 {
        actor.sealed[0].first_admitted_at
    } else {
        actor.batch.first_admitted_at
    };
    &&& total_size(actor.batch.entries) + sealed_bytes(actor.sealed) < actor.max_unpersisted_bytes
    &&& oldest matches Some(at) ==> (if now >= at {
        now - at
    } else {
        0
    }) < actor.max_unpersisted_age
}

/// The entries fit behind those of the open batch: no region has more than 1048575 of them.
pub open spec fn has_room(actor: ActorModel, entries: Seq<Entry>) -> bool {
    forall|region: u64|
        (#[trigger] count_region(actor.batch.entries, region)) + count_region(entries, region)
            < 1_048_576
}

/// The ids are noted as handed out: of each region the largest one, and nothing else.
pub open spec fn is_handed_out(
    before: Map<u64, EntryId>,
    after: Map<u64, EntryId>,
    last_ids: Map<u64, EntryId>,
) -> bool {
    &&& forall|region: u64| #[trigger]
        after.contains_key(region) <==> before.contains_key(region) || last_ids.contains_key(region)
    &&& forall|region: u64| #[trigger]
        last_ids.contains_key(region) ==> after[region] >= last_ids[region]
    &&& forall|region: u64| #[trigger]
        before.contains_key(region) ==> after[region] >= before[region]
    &&& forall|region: u64| #[trigger]
        after.contains_key(region) ==> (last_ids.contains_key(region) && after[region]
            == last_ids[region]) || (before.contains_key(region) && after[region]
            == before[region])
}

/// The entries are behind those of the open batch. The id of each is made of the next sequence and
/// of its position among the entries of its region.
pub open spec fn entered(
    before: ActorModel,
    after: ActorModel,
    entries: Seq<Entry>,
    waiter: u64,
    now: u64,
    last_ids: Map<u64, EntryId>,
) -> bool {
    let old = before.batch.entries;
    let all = after.batch.entries;
    let n = old.len() as int;
    &&& all.len() == n + entries.len()
    &&& forall|i: int| 0 <= i < n ==> #[trigger] all[i] == old[i]
    &&& forall|i: int|
        0 <= i < entries.len() ==> {
            let region = entries[i].region_id.0;
            let entry = #[trigger] all[n + i];
            &&& entry == with_id(entries[i], entry.entry_id)
            &&& entry.entry_id == before.next_object_seq->0 * 1_048_576 + count_region(old, region)
                + count_region(entries.take(i + 1), region)
        }
    &&& forall|region: u64| #[trigger]
        last_ids.contains_key(region) <==> count_region(entries, region) > 0
    &&& forall|region: u64| #[trigger]
        last_ids.contains_key(region) ==> last_ids[region] == before.next_object_seq->0
            * 1_048_576 + count_region(old, region) + count_region(entries, region)
    &&& is_handed_out(before.issued, after.issued, last_ids)
    &&& after.batch.max_bytes == before.batch.max_bytes
    &&& after.batch.first_admitted_at == (if before.batch.first_admitted_at is None
        && entries.len() > 0 {
        Some(now)
    } else {
        before.batch.first_admitted_at
    })
    &&& match before.ack_mode {
        AckMode::Durable => after.pending == before.pending.push(PendingModel { waiter, last_ids })
            && after.actions == before.actions,
        AckMode::Enqueued => after.pending == before.pending && after.actions
            == before.actions.push(ActionModel::AnswerAppend { waiter, result: Ok(last_ids) }),
    }
    &&& after.sealed == before.sealed
    &&& after.next_object_seq == before.next_object_seq
    &&& after.catalog == before.catalog
    &&& after.stalled == before.stalled
    &&& after.terminal == before.terminal
    &&& after.writer_instance == before.writer_instance
}

proof fn lemma_room_is_left(admitted: Seq<Entry>, entries: Seq<Entry>, from: int)
    requires
        0 <= from,
        forall|region: u64|
            (#[trigger] count_region(admitted, region)) + count_region(entries, region)
                < 1_048_576,
    ensures
        exhausted_from(admitted, entries, from) is None,
    decreases entries.len() - from,
{
    if from < entries.len() {
        let region = entries[from].region_id.0;
        lemma_count_concat(entries.take(from + 1), entries.skip(from + 1), region);
        assert(entries.take(from + 1) + entries.skip(from + 1) =~= entries);
        assert(count_region(admitted, region) + count_region(entries, region) < 1_048_576);
        lemma_room_is_left(admitted, entries, from + 1);
    }
}

/// The entries were entered, and the open batch was sealed exactly when its size reached the limit;
/// no append is answered by that.
pub open spec fn entered_and_sealed(
    before: ActorModel,
    taken: ActorModel,
    after: ActorModel,
    entries: Seq<Entry>,
    waiter: u64,
    now: u64,
    last_ids: Map<u64, EntryId>,
) -> bool {
    let size = total_size(before.batch.entries) + total_size(entries);
    let count = before.batch.entries.len() + entries.len();
    &&& entered(before, taken, entries, waiter, now, last_ids)
    &&& size >= before.batch.max_bytes && count > 0 ==> is_sealed(taken, after)
        && answers_no_append(taken, after)
    &&& !(size >= before.batch.max_bytes && count > 0) ==> after == taken
}

proof fn lemma_take_in_enters(
    actor: ActorModel,
    entries: Seq<Entry>,
    waiter: u64,
    now: u64,
) -> (res: (ActorModel, Map<u64, EntryId>))
    requires
        actor.valid(),
        actor.terminal is None,
        has_room(actor, entries),
        small(actor.batch.entries + entries),
    ensures
        entered_and_sealed(
            actor,
            res.0,
            actor.take_in(entries, waiter, now),
            entries,
            waiter,
            now,
            res.1,
        ),
{
    reveal(ActorModel::take_in);
    reveal(ActorModel::enter);
    assert(actor.next_object_seq is Some && actor.next_object_seq->0 < 17_592_186_044_416) by {
        reveal(ActorModel::valid);
    }
    let object_seq = actor.next_object_seq->0;
    let old = actor.batch.entries;
    lemma_room_is_left(old, entries, 0);
    let last_ids = placed_last_ids(object_seq, old, entries);
    let new = placed(object_seq, old, entries);
    let noted = ActorModel {
        batch: actor.batch.with(object_seq, entries, now),
        issued: crate::actor_model::raise_issued(actor.issued, last_ids),
        ..actor
    };
    let taken = match actor.ack_mode {
        AckMode::Durable => ActorModel {
            pending: actor.pending.push(PendingModel { waiter, last_ids }),
            ..noted
        },
        AckMode::Enqueued => noted.answer_append(waiter, Ok(last_ids)),
    };
    let after = actor.take_in(entries, waiter, now);
    assert(after == (if taken.batch.full() {
        taken.flush()
    } else {
        taken
    }));
    assert forall|i: int| 0 <= i < entries.len() implies {
        let region = entries[i].region_id.0;
        let entry = #[trigger] taken.batch.entries[old.len() + i];
        &&& entry == with_id(entries[i], entry.entry_id)
        &&& entry.entry_id == object_seq * 1_048_576 + count_region(old, region) + count_region(
            entries.take(i + 1),
            region,
        )
    } by {
        let region = entries[i].region_id.0;
        lemma_count_concat(entries.take(i + 1), entries.skip(i + 1), region);
        assert(entries.take(i + 1) + entries.skip(i + 1) =~= entries);
        assert(count_region(old, region) + count_region(entries, region) < 1_048_576);
        assert(taken.batch.entries[old.len() + i] == new[i]);
    }
    assert forall|region: u64| #[trigger] last_ids.contains_key(region) implies last_ids[region]
        == object_seq * 1_048_576 + count_region(old, region) + count_region(
        entries,
        region,
    ) by {
        assert(count_region(old, region) + count_region(entries, region) < 1_048_576);
    }
    lemma_entered_is_valid(actor, entries, waiter, now, taken, last_ids);
    lemma_sizes_keep(entries, new, object_seq, old);
    lemma_size_concat(old, new);
    if taken.batch.full() {
        assert forall|i: int| 0 <= i < taken.batch.entries.len() implies (
        #[trigger] taken.batch.entries[i]).data@.len() < 0x1_0000_0000 by {
            let given = old + entries;
            assert(given[i].data@.len() < 0x1_0000_0000);
            if i >= old.len() {
                assert(given[i] == entries[i - old.len()]);
                assert(taken.batch.entries[i] == new[i - old.len()]);
            }
        }
        lemma_flush_seals_the_batch(taken);
    }
    (taken, last_ids)
}

/// Ids do not change sizes.
proof fn lemma_sizes_keep(
    entries: Seq<Entry>,
    new: Seq<Entry>,
    object_seq: u64,
    admitted: Seq<Entry>,
)
    requires
        new == placed(object_seq, admitted, entries),
    ensures
        total_size(new) == total_size(entries),
{
    lemma_sizes_keep_upto(entries, new, object_seq, admitted, entries.len() as int);
    assert(entries.take(entries.len() as int) =~= entries);
    assert(new.take(entries.len() as int) =~= new);
}

proof fn lemma_sizes_keep_upto(
    entries: Seq<Entry>,
    new: Seq<Entry>,
    object_seq: u64,
    admitted: Seq<Entry>,
    n: int,
)
    requires
        new == placed(object_seq, admitted, entries),
        0 <= n <= entries.len(),
    ensures
        total_size(new.take(n)) == total_size(entries.take(n)),
    decreases n,
{
    if n > 0 {
        lemma_sizes_keep_upto(entries, new, object_seq, admitted, n - 1);
        assert(new.take(n).drop_last() =~= new.take(n - 1));
        assert(entries.take(n).drop_last() =~= entries.take(n - 1));
    }
}

/// The state in which the entries were entered is valid: it is the state after the append to a
/// store whose batches are never full.
proof fn lemma_entered_is_valid(
    actor: ActorModel,
    entries: Seq<Entry>,
    waiter: u64,
    now: u64,
    taken: ActorModel,
    last_ids: Map<u64, EntryId>,
)
    requires
        actor.valid(),
        actor.next_object_seq is Some,
        actor.batch.exhausted(entries) is None,
        last_ids == placed_last_ids(actor.next_object_seq->0, actor.batch.entries, entries),
        taken == (match actor.ack_mode {
            AckMode::Durable => ActorModel {
                batch: actor.batch.with(actor.next_object_seq->0, entries, now),
                issued: crate::actor_model::raise_issued(actor.issued, last_ids),
                pending: actor.pending.push(PendingModel { waiter, last_ids }),
                ..actor
            },
            AckMode::Enqueued => (ActorModel {
                batch: actor.batch.with(actor.next_object_seq->0, entries, now),
                issued: crate::actor_model::raise_issued(actor.issued, last_ids),
                ..actor
            }).answer_append(waiter, Ok(last_ids)),
        }),
    ensures
        taken.valid(),
{
    let size = total_size(taken.batch.entries) as int + 1;
    let roomy = ActorModel {
        batch: crate::batch::ObjectBatchModel { max_bytes: size, ..actor.batch },
        ..actor
    };
    assert(roomy.valid()) by {
        reveal(ActorModel::valid);
    }
    crate::actor_laws::lemma_enter_follows(roomy, entries, waiter, now);
    let entered = roomy.enter(roomy.next_object_seq->0, entries, waiter, now);
    assert(entered == (ActorModel {
        batch: crate::batch::ObjectBatchModel { max_bytes: size, ..taken.batch },
        ..taken
    })) by {
        reveal(ActorModel::enter);
        assert(!(ActorModel {
            batch: crate::batch::ObjectBatchModel { max_bytes: size, ..taken.batch },
            ..taken
        }).batch.full());
    }
    reveal(ActorModel::valid);
    assert(entered.valid());
    assert(taken.batch.entries == entered.batch.entries);
    assert(taken.pending == entered.pending);
    assert(taken.sealed == entered.sealed);
    assert(taken.issued == entered.issued);
    assert forall|k: int| 0 <= k < taken.pending.len() implies crate::actor_laws::held(
        (#[trigger] taken.pending[k]).last_ids,
        taken.batch.entries,
    ) by {
        assert(crate::actor_laws::held(entered.pending[k].last_ids, entered.batch.entries));
    }
    assert(taken.covers_waiters());
    assert(taken.fresh()) by {
        assert(entered.fresh());
        assert(entered.next_object_seq == taken.next_object_seq);
        assert(entered.stopped == taken.stopped);
        assert(entered.terminal == taken.terminal);
    }
    assert(taken.owes_nothing());
}

/// An append that has room is taken in by a store that is neither stopped nor failed: always in the
/// durable mode, where it waits for its object, and below the thresholds in the enqueued mode,
/// where it is acknowledged at once. The open batch is sealed exactly when its size reaches the
/// limit, and no append is answered by that.
pub proof fn lemma_append_is_taken_in(
    actor: ActorModel,
    entries: Seq<Entry>,
    waiter: u64,
    now: u64,
) -> (res: (ActorModel, Map<u64, EntryId>))
    requires
        actor.valid(),
        !actor.stopped,
        actor.terminal is None,
        actor.ack_mode == AckMode::Durable || below_thresholds(actor, now),
        has_room(actor, entries),
        small(actor.batch.entries + entries),
    ensures
        entered_and_sealed(
            actor,
            res.0,
            actor.append(entries, waiter, now),
            entries,
            waiter,
            now,
            res.1,
        ),
{
    lemma_take_in_enters(actor, entries, waiter, now)
}

proof fn lemma_room_is_missing(admitted: Seq<Entry>, entries: Seq<Entry>, from: int, k: int)
    requires
        0 <= from <= k < entries.len(),
        count_region(admitted, entries[k].region_id.0) + count_region(
            entries.take(k + 1),
            entries[k].region_id.0,
        ) >= 1_048_576,
    ensures
        exhausted_from(admitted, entries, from) is Some,
    decreases k - from,
{
    if from < k {
        lemma_room_is_missing(admitted, entries, from + 1, k);
    }
}

/// What has no room exhausts the positions of a region.
proof fn lemma_exhausted_without_room(actor: ActorModel, entries: Seq<Entry>, region: u64)
    requires
        actor.valid(),
        count_region(actor.batch.entries, region) + count_region(entries, region) >= 1_048_576,
    ensures
        actor.batch.exhausted(entries) is Some,
{
    let old = actor.batch.entries;
    if count_region(entries, region) == 0 {
        reveal(ActorModel::valid);
        let at = lemma_last_of_region(old, region);
        assert(crate::actor_laws::id_fits(old, actor.next_object_seq->0, at));
    } else {
        let at = lemma_last_of_region(entries, region);
        lemma_room_is_missing(old, entries, 0, at);
    }
}

/// An append that has no room behind the entries of the open batch, but would have room in a batch
/// of its own, is taken into the next object: the open batch is sealed first.
pub proof fn lemma_append_seals_first(
    actor: ActorModel,
    entries: Seq<Entry>,
    waiter: u64,
    now: u64,
    region: u64,
) -> (res: (ActorModel, ActorModel, Map<u64, EntryId>))
    requires
        actor.valid(),
        !actor.stopped,
        actor.terminal is None,
        actor.ack_mode == AckMode::Durable || below_thresholds(actor, now),
        actor.batch.entries.len() > 0,
        actor.next_object_seq->0 < 17_592_186_044_415,
        count_region(actor.batch.entries, region) + count_region(entries, region) >= 1_048_576,
        forall|r: u64| #[trigger] count_region(entries, r) < 1_048_576,
        small(actor.batch.entries),
        small(entries),
    ensures
        is_sealed(actor, res.0),
        answers_no_append(actor, res.0),
        res.0.next_object_seq == Some((actor.next_object_seq->0 + 1) as u64),
        entered_and_sealed(
            res.0,
            res.1,
            actor.append(entries, waiter, now),
            entries,
            waiter,
            now,
            res.2,
        ),
{
    let open = actor.flush();
    lemma_flush_seals_the_batch(actor);
    lemma_flush_follows(actor);
    lemma_exhausted_without_room(actor, entries, region);
    assert(open.batch.entries =~= Seq::empty());
    assert(open.batch.entries + entries =~= entries);
    assert(has_room(open, entries));
    let (taken, last_ids) = lemma_take_in_enters(open, entries, waiter, now);
    assert(actor.append(entries, waiter, now) == open.take_in(entries, waiter, now)) by {
        reveal(ActorModel::take_in);
        lemma_room_is_left(Seq::empty(), entries, 0);
    }
    (open, taken, last_ids)
}

/// An append with too many entries of one region for any object is refused, and says which region
/// it is. What was open before is sealed, and nothing else happens.
pub proof fn lemma_append_exceeds_positions(
    actor: ActorModel,
    entries: Seq<Entry>,
    waiter: u64,
    now: u64,
    region: u64,
) -> (res: (ActorModel, RegionId))
    requires
        actor.valid(),
        !actor.stopped,
        actor.terminal is None,
        actor.ack_mode == AckMode::Durable || below_thresholds(actor, now),
        actor.next_object_seq->0 < 17_592_186_044_415,
        count_region(entries, region) >= 1_048_576,
        small(actor.batch.entries),
    ensures
        actor.batch.entries.len() == 0 ==> res.0 == actor,
        actor.batch.entries.len() > 0 ==> is_sealed(actor, res.0) && answers_no_append(
            actor,
            res.0,
        ),
        ({
            let (_, named) = res;
            count_region(entries, named.0) >= 1_048_576
        }),
        actor.append(entries, waiter, now) == res.0.act(
            ActionModel::AnswerAppend {
                waiter,
                result: Err(
                    Failure::Own(Error::WalEntryPositionExhausted { region_id: res.1 }),
                ),
            },
        ),
{
    reveal(ActorModel::take_in);
    assert(actor.next_object_seq is Some) by {
        reveal(ActorModel::valid);
    }
    lemma_exhausted_without_room(actor, entries, region);
    let open = if actor.batch.entries.len() > 0 {
        lemma_flush_seals_the_batch(actor);
        lemma_flush_follows(actor);
        actor.flush()
    } else {
        actor
    };
    assert(open.batch.entries =~= Seq::empty());
    let at = lemma_last_of_region(entries, region);
    lemma_room_is_missing(open.batch.entries, entries, 0, at);
    let named = open.batch.exhausted(entries)->0;
    lemma_names_exceeding(open.batch.entries, entries, 0);
    (open, named)
}

/// The region that is named has too many entries.
proof fn lemma_names_exceeding(admitted: Seq<Entry>, entries: Seq<Entry>, from: int)
    requires
        0 <= from,
        exhausted_from(admitted, entries, from) is Some,
    ensures
        exhausted_from(admitted, entries, from) matches Some(named) && count_region(
            admitted,
            named.0,
        ) + count_region(entries, named.0) >= 1_048_576,
    decreases entries.len() - from,
{
    if from < entries.len() {
        let region = entries[from].region_id.0;
        lemma_count_concat(entries.take(from + 1), entries.skip(from + 1), region);
        assert(entries.take(from + 1) + entries.skip(from + 1) =~= entries);
        if count_region(admitted, region) + count_region(entries.take(from + 1), region)
            < 1_048_576 {
            lemma_names_exceeding(admitted, entries, from + 1);
        }
    }
}

/// At a threshold the enqueued mode holds an append back behind those that it holds back already,
/// and answers nobody. While an upload runs nothing else happens; while none runs, the open batch
/// is sealed, so that there is one to wait for.
pub proof fn lemma_append_is_held_back(
    actor: ActorModel,
    entries: Seq<Entry>,
    waiter: u64,
    now: u64,
)
    requires
        actor.valid(),
        !actor.stopped,
        actor.terminal is None,
        actor.ack_mode == AckMode::Enqueued,
        !below_thresholds(actor, now),
        small(actor.batch.entries),
    ensures
        ({
            let after = actor.append(entries, waiter, now);
            let held = ActorModel {
                stalled: actor.stalled.push(StalledModel { entries, waiter }),
                ..actor
            };
            &&& after.stalled == held.stalled
            &&& answers_no_append(actor, after)
            &&& (exists|i: int|
                0 <= i < actor.sealed.len() && (#[trigger] actor.sealed[i]).state
                    == CreateState::InFlight) || actor.batch.entries.len() == 0 ==> after == held
            &&& !(exists|i: int|
                0 <= i < actor.sealed.len() && (#[trigger] actor.sealed[i]).state
                    == CreateState::InFlight) && actor.batch.entries.len() > 0 ==> is_sealed(
                held,
                after,
            )
        }),
{
    let held = ActorModel {
        stalled: actor.stalled.push(StalledModel { entries, waiter }),
        ..actor
    };
    lemma_find_state_bounds(actor.sealed, CreateState::InFlight, 0);
    lemma_found_state(actor.sealed, CreateState::InFlight, 0);
    assert(held.valid()) by {
        reveal(ActorModel::valid);
    }
    if actor.batch.entries.len() == 0 {
        reveal(ActorModel::flush);
    } else {
        lemma_flush_seals_the_batch(held);
    }
}

proof fn lemma_found_state(sealed: Seq<SealedModel>, state: CreateState, from: int)
    requires
        0 <= from,
    ensures
        find_state(sealed, state, from) is None ==> forall|i: int|
            from <= i < sealed.len() ==> (#[trigger] sealed[i]).state != state,
    decreases sealed.len() - from,
{
    if from < sealed.len() && sealed[from].state != state {
        lemma_found_state(sealed, state, from + 1);
    }
}

/// A stopped store refuses every append as stopped, and a failed one with its error. Nothing else
/// happens.
pub proof fn lemma_append_is_refused(
    actor: ActorModel,
    entries: Seq<Entry>,
    waiter: u64,
    now: u64,
)
    ensures
        actor.stopped ==> actor.append(entries, waiter, now) == actor.act(
            ActionModel::AnswerAppend {
                waiter,
                result: Err(Failure::Own(Error::ObjectStoreWalStopped)),
            },
        ),
        !actor.stopped && actor.terminal is Some ==> actor.append(entries, waiter, now)
            == actor.act(
            ActionModel::AnswerAppend {
                waiter,
                result: Err(Failure::Shared(actor.terminal->0)),
            },
        ),
{
}

/// Below the thresholds the append that was held back first is taken in, as if it arrived now, and
/// then the next one, and so on.
pub proof fn lemma_first_is_released(actor: ActorModel, now: u64) -> (res: (
    ActorModel,
    ActorModel,
    Map<u64, EntryId>,
))
    requires
        actor.valid(),
        !actor.stopped,
        actor.terminal is None,
        actor.stalled.len() > 0,
        below_thresholds(actor, now),
        has_room(actor, actor.stalled[0].entries),
        small(actor.batch.entries + actor.stalled[0].entries),
    ensures
        entered_and_sealed(
            ActorModel { stalled: actor.stalled.drop_first(), ..actor },
            res.0,
            res.1,
            actor.stalled[0].entries,
            actor.stalled[0].waiter,
            now,
            res.2,
        ),
        res.1.stalled == actor.stalled.drop_first(),
        actor.release_stalled(now) == res.1.release_stalled(now),
{
    let first = actor.stalled[0];
    let popped = ActorModel { stalled: actor.stalled.drop_first(), ..actor };
    lemma_popped_follows(actor);
    let (taken, last_ids) = lemma_take_in_enters(popped, first.entries, first.waiter, now);
    (taken, popped.take_in(first.entries, first.waiter, now), last_ids)
}

/// At a threshold no append that was held back is let in, and nobody is answered. While an upload
/// runs nothing happens; while none runs, the open batch is sealed.
pub proof fn lemma_none_is_released(actor: ActorModel, now: u64)
    requires
        actor.valid(),
        !actor.stopped,
        actor.terminal is None,
        actor.stalled.len() > 0,
        !below_thresholds(actor, now),
        small(actor.batch.entries),
    ensures
        ({
            let after = actor.release_stalled(now);
            &&& after.stalled == actor.stalled
            &&& answers_no_append(actor, after)
            &&& (exists|i: int|
                0 <= i < actor.sealed.len() && (#[trigger] actor.sealed[i]).state
                    == CreateState::InFlight) || actor.batch.entries.len() == 0 ==> after == actor
            &&& !(exists|i: int|
                0 <= i < actor.sealed.len() && (#[trigger] actor.sealed[i]).state
                    == CreateState::InFlight) && actor.batch.entries.len() > 0 ==> is_sealed(
                actor,
                after,
            )
        }),
{
    lemma_find_state_bounds(actor.sealed, CreateState::InFlight, 0);
    lemma_found_state(actor.sealed, CreateState::InFlight, 0);
    if actor.batch.entries.len() == 0 {
        reveal(ActorModel::flush);
    } else {
        lemma_flush_seals_the_batch(actor);
    }
}

/// Once the store is stopped, every append that was held back is failed as stopped.
pub proof fn lemma_held_back_fail_on_stop(actor: ActorModel, now: u64)
    requires
        actor.stopped,
    ensures
        ({
            let after = actor.release_stalled(now);
            &&& after.stalled.len() == 0
            &&& forall|k: int|
                0 <= k < actor.stalled.len() ==> fails_append(
                    actor,
                    after,
                    (#[trigger] actor.stalled[k]).waiter,
                    Failure::Own(Error::ObjectStoreWalStopped),
                )
            &&& after == (ActorModel {
                stalled: after.stalled,
                actions: after.actions,
                ..actor
            })
        }),
{
    let after = actor.release_stalled(now);
    let failure = Failure::Own(Error::ObjectStoreWalStopped);
    assert(after.stalled =~= Seq::empty());
    assert forall|k: int| 0 <= k < actor.stalled.len() implies fails_append(
        actor,
        after,
        (#[trigger] actor.stalled[k]).waiter,
        failure,
    ) by {
        assert(after.actions[actor.actions.len() + k] == fail_stalled(
            actor.stalled,
            failure,
        )[k]);
    }
}

/// Stopping the enqueued mode refuses what was held back and uploads what was acknowledged: the
/// open batch is sealed, and no batch is dropped.
pub proof fn lemma_enqueued_stop_seals(actor: ActorModel, waiter: u64)
    requires
        actor.valid(),
        actor.ack_mode == AckMode::Enqueued,
        actor.terminal is None,
        small(actor.batch.entries),
    ensures
        ({
            let after = actor.begin_exit(waiter);
            &&& after.stop == actor.stop.push(waiter)
            &&& after.stalled.len() == 0
            &&& forall|k: int|
                0 <= k < actor.stalled.len() ==> fails_append(
                    actor,
                    after,
                    (#[trigger] actor.stalled[k]).waiter,
                    Failure::Own(Error::ObjectStoreWalStopped),
                )
            &&& after.catalog == actor.catalog
            &&& after.stop_error == actor.stop_error
            &&& actor.batch.entries.len() == 0 ==> after.sealed == actor.sealed
            &&& actor.batch.entries.len() > 0 ==> {
                let n = actor.sealed.len() as int;
                &&& after.batch.entries.len() == 0
                &&& after.sealed.len() == n + 1
                &&& after.sealed[n].object_seq == actor.next_object_seq->0
                &&& after.sealed[n].footer == footer_of(grouped(entry_records(actor.batch.entries)))
                &&& after.sealed[n].waiters == actor.pending
                &&& forall|k: int|
                    0 <= k < n ==> same_batch(#[trigger] after.sealed[k], actor.sealed[k])
                &&& !actor.draining ==> all_started(after.sealed) || four_run(after.sealed)
            }
        }),
{
    let failure = Failure::Own(Error::ObjectStoreWalStopped);
    let stopping = ActorModel { stop: actor.stop.push(waiter), ..actor };
    let dropped = ActorModel {
        stalled: Seq::empty(),
        ..stopping.act_all(fail_stalled(actor.stalled, failure))
    };
    let after = actor.begin_exit(waiter);
    assert(after == dropped.flush());
    assert(dropped.valid()) by {
        reveal(ActorModel::valid);
    }
    if actor.batch.entries.len() == 0 {
        reveal(ActorModel::flush);
    } else {
        lemma_flush_seals_the_batch(dropped);
        assert(after.stop == dropped.stop && after.stop_error == dropped.stop_error) by {
            reveal(ActorModel::flush);
            reveal(ActorModel::start_creates);
            lemma_start_frame(
                dropped.sealed_noted(),
                0,
                in_flight(dropped.sealed_noted().sealed),
            );
            lemma_open_batch_is_encodable(dropped);
            reveal(ActorModel::valid);
        }
    }
    assert forall|k: int| 0 <= k < actor.stalled.len() implies fails_append(
        actor,
        after,
        (#[trigger] actor.stalled[k]).waiter,
        failure,
    ) by {
        let at = actor.actions.len() + k;
        assert(dropped.actions[at] == fail_stalled(actor.stalled, failure)[k]);
        assert(after.actions[at] == dropped.actions[at]);
    }
}

/// The callers of stop are answered exactly when there are some and no batch, no create and no
/// delete is left: with success, or with the loss where an acknowledged backlog was dropped.
/// Whoever still waits for durability then is told that the store was stopped.
pub proof fn lemma_stop_is_answered(actor: ActorModel)
    ensures
        ({
            let after = actor.finish_exit();
            let is_done = actor.stop.len() > 0 && actor.sealed.len() == 0 && actor.creates.len()
                == 0 && forall|seq: u64| !#[trigger] actor.deleting.contains(seq);
            &&& !is_done ==> after == actor
            &&& is_done ==> {
                &&& after.stop.len() == 0
                &&& after.durable_waiters.len() == 0
                &&& forall|k: int|
                    0 <= k < actor.stop.len() ==> answers(
                        actor,
                        after,
                        #[trigger] actor.stop[k],
                        match actor.stop_error {
                            Some(error) => Err(Failure::Shared(error)),
                            None => Ok(()),
                        },
                    )
                &&& forall|k: int|
                    0 <= k < actor.durable_waiters.len() ==> answers(
                        actor,
                        after,
                        (#[trigger] actor.durable_waiters[k]).waiter,
                        Err(Failure::Own(Error::ObjectStoreWalStopped)),
                    )
            }
        }),
{
    let after = actor.finish_exit();
    let is_done = actor.stop.len() > 0 && actor.sealed.len() == 0 && actor.creates.len() == 0
        && forall|seq: u64| !#[trigger] actor.deleting.contains(seq);
    if is_done {
        assert(actor.deleting =~= Set::<u64>::empty());
        let told = fail_durable(
            actor.durable_waiters,
            Failure::Own(Error::ObjectStoreWalStopped),
        );
        let result = match actor.stop_error {
            Some(error) => Err(Failure::Shared(error)),
            None => Ok(()),
        };
        let stops = answer_all(actor.stop, result);
        let n = actor.actions.len() as int;
        assert(after.actions == actor.actions + told + stops);
        assert forall|k: int| 0 <= k < actor.stop.len() implies answers(
            actor,
            after,
            #[trigger] actor.stop[k],
            result,
        ) by {
            assert(after.actions[n + told.len() + k] == stops[k]);
        }
        assert forall|k: int| 0 <= k < actor.durable_waiters.len() implies answers(
            actor,
            after,
            (#[trigger] actor.durable_waiters[k]).waiter,
            Err(Failure::Own(Error::ObjectStoreWalStopped)),
        ) by {
            assert(after.actions[n + k] == told[k]);
        }
    }
}

} // verus!
